//! The pipeline core: extraction of fenced blocks, grouping by language,
//! splitting a formatter's combined output back into per-block fragments, and
//! reassembly of the document.

use vstd::prelude::*;

use crate::bytes::append_range;
use crate::bytes::bytes_eq;
use crate::bytes::copy_bytes;
use crate::bytes::find_from;
use crate::bytes::lemma_find_char;
use crate::bytes::match_at;
use crate::bytes::spec_find;
use crate::bytes::sub_to_vec;
use crate::code_blocks::sep_bytes;
use crate::code_blocks::sep_spec;
use crate::code_blocks::Block;
use crate::code_blocks::Blocks;
use crate::code_blocks::LangBlocks;
use crate::code_blocks::Language;
use crate::config::spec_resolve;
use crate::config::Config;

verus! {

/// The fence delimiter: three backticks.
pub open spec fn delim_spec() -> Seq<u8> {
    seq![96u8, 96u8, 96u8]
}

/// A newline byte.
pub open spec fn nl_spec() -> Seq<u8> {
    seq![10u8]
}

fn delim_bytes() -> (r: Vec<u8>)
    ensures
        r@ == delim_spec(),
{
    let mut v: Vec<u8> = Vec::new();
    v.push(96);
    v.push(96);
    v.push(96);
    proof {
        assert(v@ =~= delim_spec());
    }
    v
}

fn nl_bytes() -> (r: Vec<u8>)
    ensures
        r@ == nl_spec(),
{
    let mut v: Vec<u8> = Vec::new();
    v.push(10);
    proof {
        assert(v@ =~= nl_spec());
    }
    v
}

/// One fenced region as the scan registers it: the byte range of its content
/// and the language tag on the opening line.
pub struct ScanBlock {
    pub start: int,
    pub end: int,
    pub tag: Seq<u8>,
}

/// The ordered table of fenced regions found in `data` from position `pos`
/// on.  Consecutive fence delimiters are paired as (open, close); the opening
/// line up to the first newline carries the language tag, and the remainder
/// up to the closing delimiter is the content.  A pair with no newline
/// between its delimiters registers nothing; an unmatched trailing opening
/// delimiter ends the scan.
pub open spec fn spec_scan(data: Seq<u8>, pos: int) -> Seq<ScanBlock>
    decreases data.len() - pos,
    when pos >= 0
    via spec_scan_dec
{
    match spec_find(data, delim_spec(), pos) {
        None => Seq::empty(),
        Some(s) => match spec_find(data, delim_spec(), s + 3) {
            None => Seq::empty(),
            Some(e) => {
                let rest = spec_scan(data, e + 3);
                match spec_find(data, nl_spec(), s) {
                    Some(nl) => if nl < e {
                        seq![ScanBlock { start: nl + 1, end: e, tag: data.subrange(s + 3, nl) }]
                            + rest
                    } else {
                        rest
                    },
                    None => rest,
                }
            },
        },
    }
}

#[via_fn]
proof fn spec_scan_dec(data: Seq<u8>, pos: int) {
    lemma_find_char(data, delim_spec(), pos);
    match spec_find(data, delim_spec(), pos) {
        Some(s) => {
            lemma_find_char(data, delim_spec(), s + 3);
        },
        None => {},
    }
}

/// A newline found at or after an opening delimiter lies past the three
/// backtick bytes.
proof fn lemma_nl_past_delim(data: Seq<u8>, s: int, nl: int)
    requires
        match_at(data, delim_spec(), s),
        match_at(data, nl_spec(), nl),
        s <= nl,
    ensures
        s + 3 <= nl,
{
    if nl < s + 3 {
        assert(data.subrange(nl, nl + 1)[0] == data[nl]);
        assert(data[nl] == 10);
        assert(data.subrange(s, s + 3)[nl - s] == data[nl]);
        assert(data[nl] == 96);
    }
}

/// Structural facts about the scan: every block's content range lies inside
/// the document at or after `pos`, each block ends at a fence delimiter, the
/// tag sits between the opening delimiter and the content, and successive
/// blocks are disjoint and in document order.
pub proof fn lemma_scan_wf(data: Seq<u8>, pos: int)
    requires
        0 <= pos,
    ensures
        ({
            let sb = spec_scan(data, pos);
            forall|k: int|
                #![trigger sb[k]]
                0 <= k < sb.len() ==> {
                    &&& pos <= sb[k].start <= sb[k].end
                    &&& sb[k].end + 3 <= data.len()
                    &&& match_at(data, delim_spec(), sb[k].end)
                    &&& (k + 1 < sb.len() ==> sb[k].end + 3 <= sb[k + 1].start)
                }
        }),
    decreases data.len() - pos,
{
    let sb = spec_scan(data, pos);
    lemma_find_char(data, delim_spec(), pos);
    match spec_find(data, delim_spec(), pos) {
        None => {},
        Some(s) => {
            lemma_find_char(data, delim_spec(), s + 3);
            match spec_find(data, delim_spec(), s + 3) {
                None => {},
                Some(e) => {
                    lemma_scan_wf(data, e + 3);
                    let rest = spec_scan(data, e + 3);
                    lemma_find_char(data, nl_spec(), s);
                    match spec_find(data, nl_spec(), s) {
                        Some(nl) => {
                            if nl < e {
                                let nb = ScanBlock {
                                    start: nl + 1,
                                    end: e,
                                    tag: data.subrange(s + 3, nl),
                                };
                                assert(sb == seq![nb] + rest);
                                assert(sb[0] == nb);
                                assert(forall|k: int| 1 <= k < sb.len() ==> sb[k] == rest[k - 1]);
                            }
                        },
                        None => {},
                    }
                },
            }
        },
    }
}

/// Content bytes of scanned block `i`.
pub open spec fn scan_content(data: Seq<u8>, sb: Seq<ScanBlock>, i: int) -> Seq<u8> {
    data.subrange(sb[i].start, sb[i].end)
}

/// The batch buffer for the blocks `idxs`: for each, the comment token, the
/// boundary marker, and the block's content, in order.
pub open spec fn spec_joined(
    data: Seq<u8>,
    sb: Seq<ScanBlock>,
    idxs: Seq<usize>,
    token: Seq<u8>,
) -> Seq<u8>
    decreases idxs.len(),
{
    if idxs.len() == 0 {
        Seq::empty()
    } else {
        spec_joined(data, sb, idxs.drop_last(), token) + token + sep_spec() + scan_content(
            data,
            sb,
            idxs.last() as int,
        )
    }
}

/// The batch buffer depends only on the scanned blocks it indexes.
proof fn lemma_joined_stable(
    data: Seq<u8>,
    sb1: Seq<ScanBlock>,
    sb2: Seq<ScanBlock>,
    idxs: Seq<usize>,
    token: Seq<u8>,
)
    requires
        forall|j: int|
            0 <= j < idxs.len() ==> (#[trigger] idxs[j]) < sb1.len() && idxs[j] < sb2.len()
                && sb1[idxs[j] as int] == sb2[idxs[j] as int],
    ensures
        spec_joined(data, sb1, idxs, token) == spec_joined(data, sb2, idxs, token),
    decreases idxs.len(),
{
    if idxs.len() > 0 {
        assert(forall|j: int|
            0 <= j < idxs.drop_last().len() ==> #[trigger] idxs.drop_last()[j] == idxs[j]);
        lemma_joined_stable(data, sb1, sb2, idxs.drop_last(), token);
    }
}

/// The block table records exactly the scanned blocks: same count, same byte
/// ranges, and each block's content equal to its byte range of the document.
pub open spec fn blocks_match_scan(data: Seq<u8>, items: Seq<Block>, sb: Seq<ScanBlock>) -> bool {
    &&& items.len() == sb.len()
    &&& forall|k: int|
        #![trigger items[k]]
        0 <= k < items.len() ==> {
            &&& items[k].start == sb[k].start
            &&& items[k].end == sb[k].end
            &&& items[k].data@ == data.subrange(sb[k].start, sb[k].end)
        }
}

/// One language group is well formed with respect to the scan `sb`: its tag
/// resolves to its configuration, it owns exactly the indices of the blocks
/// bearing its tag, in strictly increasing (document) order, and its batch
/// buffer is the concatenation of comment token, boundary marker, and content
/// for each owned block.
pub open spec fn group_wf(data: Seq<u8>, c: Config, sb: Seq<ScanBlock>, g: LangBlocks) -> bool {
    &&& (spec_resolve(c, g.lang.name@) matches Some(cfg) && cfg@ == g.lang.cfg@)
    &&& g.blocks@.len() > 0
    &&& (forall|j: int| 0 <= j < g.blocks@.len() ==> (#[trigger] g.blocks@[j]) < sb.len())
    &&& (forall|j1: int, j2: int|
        0 <= j1 < j2 < g.blocks@.len() ==> g.blocks@[j1] < g.blocks@[j2])
    &&& (forall|k: int|
        0 <= k < sb.len() ==> ((#[trigger] g.blocks@.contains(k as usize)) <==> sb[k].tag
            == g.lang.name@))
    &&& g.joined_data@ == spec_joined(data, sb, g.blocks@, g.lang.cfg.comment_token@)
}

/// The groups partition the recognized scanned blocks by language: the
/// groups bear pairwise distinct languages, each is well formed, and every
/// block whose tag resolves belongs to the group of its tag.
pub open spec fn groups_wf(
    data: Seq<u8>,
    c: Config,
    sb: Seq<ScanBlock>,
    groups: Seq<LangBlocks>,
) -> bool {
    &&& (forall|g1: int, g2: int|
        0 <= g1 < g2 < groups.len() ==> groups[g1].lang.name@ != groups[g2].lang.name@)
    &&& (forall|g: int| 0 <= g < groups.len() ==> group_wf(data, c, sb, #[trigger] groups[g]))
    &&& (forall|k: int|
        0 <= k < sb.len() && spec_resolve(c, (#[trigger] sb[k]).tag) is Some ==> exists|g: int|
            0 <= g < groups.len() && (#[trigger] groups[g].lang.name@) == sb[k].tag)
}

/// A well-formed group stays well formed when a block with a different tag is
/// scanned.
proof fn lemma_group_stable(
    data: Seq<u8>,
    c: Config,
    done: Seq<ScanBlock>,
    nb: ScanBlock,
    g: LangBlocks,
)
    requires
        group_wf(data, c, done, g),
        nb.tag != g.lang.name@,
        done.len() <= usize::MAX,
    ensures
        group_wf(data, c, done.push(nb), g),
{
    let done2 = done.push(nb);
    assert forall|k: int|
        0 <= k < done2.len() implies ((#[trigger] g.blocks@.contains(k as usize)) <==> done2[k].tag
        == g.lang.name@) by {
        if k < done.len() {
            assert(done2[k] == done[k]);
        } else {
            assert(done2[k] == nb);
            if g.blocks@.contains(k as usize) {
                let j = choose|j: int|
                    0 <= j < g.blocks@.len() && g.blocks@[j] == k as usize;
                assert(g.blocks@[j] < done.len());
                assert(false);
            }
        }
    }
    lemma_joined_stable(data, done, done2, g.blocks@, g.lang.cfg.comment_token@);
}

/// Extending a group with the newly scanned block of its own language keeps
/// it well formed.
proof fn lemma_group_add(
    data: Seq<u8>,
    c: Config,
    done: Seq<ScanBlock>,
    nb: ScanBlock,
    old_g: LangBlocks,
    new_g: LangBlocks,
)
    requires
        group_wf(data, c, done, old_g),
        nb.tag == old_g.lang.name@,
        new_g.lang == old_g.lang,
        new_g.blocks@ == old_g.blocks@.push(done.len() as usize),
        new_g.joined_data@ == old_g.joined_data@ + old_g.lang.cfg.comment_token@ + sep_spec()
            + data.subrange(nb.start, nb.end),
        done.len() <= usize::MAX,
    ensures
        group_wf(data, c, done.push(nb), new_g),
{
    let done2 = done.push(nb);
    let idx = done.len() as usize;
    assert forall|j: int| 0 <= j < new_g.blocks@.len() implies (#[trigger] new_g.blocks@[j])
        < done2.len() by {
        if j < old_g.blocks@.len() {
            assert(old_g.blocks@[j] < done.len());
        }
    }
    assert forall|j1: int, j2: int|
        0 <= j1 < j2 < new_g.blocks@.len() implies new_g.blocks@[j1] < new_g.blocks@[j2] by {
        if j2 < old_g.blocks@.len() {
        } else {
            assert(new_g.blocks@[j2] == idx);
            assert(old_g.blocks@[j1] < done.len());
        }
    }
    assert forall|k: int|
        0 <= k < done2.len() implies ((#[trigger] new_g.blocks@.contains(k as usize))
        <==> done2[k].tag == new_g.lang.name@) by {
        if k < done.len() {
            assert(done2[k] == done[k]);
            if old_g.blocks@.contains(k as usize) {
                let j = choose|j: int|
                    0 <= j < old_g.blocks@.len() && old_g.blocks@[j] == k as usize;
                assert(new_g.blocks@[j] == k as usize);
                assert(new_g.blocks@.contains(k as usize));
            }
            if new_g.blocks@.contains(k as usize) {
                let j = choose|j: int|
                    0 <= j < new_g.blocks@.len() && new_g.blocks@[j] == k as usize;
                if j < old_g.blocks@.len() {
                    assert(old_g.blocks@.contains(k as usize));
                } else {
                    assert(new_g.blocks@[j] == idx);
                    assert(false);
                }
            }
        } else {
            assert(done2[k] == nb);
            assert(new_g.blocks@[old_g.blocks@.len() as int] == idx);
            assert(new_g.blocks@.contains(idx));
        }
    }
    lemma_joined_stable(data, done, done2, old_g.blocks@, old_g.lang.cfg.comment_token@);
    assert(new_g.blocks@.drop_last() =~= old_g.blocks@);
    assert(new_g.blocks@.last() == idx);
    assert(done2[idx as int] == nb);
    assert(scan_content(data, done2, idx as int) == data.subrange(nb.start, nb.end));
}

/// A fresh group holding only the newly scanned block is well formed.
proof fn lemma_group_new(
    data: Seq<u8>,
    c: Config,
    done: Seq<ScanBlock>,
    nb: ScanBlock,
    g: LangBlocks,
)
    requires
        spec_resolve(c, nb.tag) matches Some(cfg) && cfg@ == g.lang.cfg@,
        g.lang.name@ == nb.tag,
        g.blocks@ == Seq::<usize>::empty().push(done.len() as usize),
        g.joined_data@ == Seq::<u8>::empty() + g.lang.cfg.comment_token@ + sep_spec()
            + data.subrange(nb.start, nb.end),
        forall|k: int| 0 <= k < done.len() ==> (#[trigger] done[k]).tag != nb.tag,
        done.len() <= usize::MAX,
    ensures
        group_wf(data, c, done.push(nb), g),
{
    let done2 = done.push(nb);
    let idx = done.len() as usize;
    assert(g.blocks@.len() == 1);
    assert(g.blocks@[0] == idx);
    assert forall|k: int|
        0 <= k < done2.len() implies ((#[trigger] g.blocks@.contains(k as usize)) <==> done2[k].tag
        == g.lang.name@) by {
        if k < done.len() {
            assert(done2[k] == done[k]);
            if g.blocks@.contains(k as usize) {
                let j = choose|j: int|
                    0 <= j < g.blocks@.len() && g.blocks@[j] == k as usize;
                assert(j == 0);
                assert(false);
            }
        } else {
            assert(done2[k] == nb);
            assert(g.blocks@.contains(idx));
        }
    }
    assert(g.blocks@.drop_last() =~= Seq::<usize>::empty());
    assert(g.blocks@.last() == idx);
    assert(done2[idx as int] == nb);
    let token = g.lang.cfg.comment_token@;
    assert(spec_joined(data, done2, Seq::<usize>::empty(), token) == Seq::<u8>::empty());
    assert(spec_joined(data, done2, g.blocks@, token) == spec_joined(
        data,
        done2,
        g.blocks@.drop_last(),
        token,
    ) + token + sep_spec() + scan_content(data, done2, idx as int));
    assert(g.joined_data@ =~= spec_joined(data, done2, g.blocks@, g.lang.cfg.comment_token@));
}

/// The group (if any) whose language is `name`.
fn find_group(groups: &Vec<LangBlocks>, name: &[u8]) -> (r: Option<usize>)
    ensures
        match r {
            Some(g) => (g as int) < groups@.len() && groups@[g as int].lang.name@ == name@,
            None => forall|g: int| 0 <= g < groups@.len() ==> groups@[g].lang.name@ != name@,
        },
{
    let mut i: usize = 0;
    while i < groups.len()
        invariant
            i <= groups@.len(),
            forall|j: int| 0 <= j < i ==> groups@[j].lang.name@ != name@,
        decreases groups@.len() - i,
    {
        if bytes_eq(groups[i].lang.name.as_slice(), name) {
            return Some(i);
        }
        i = i + 1;
    }
    None
}

/// Scans `data` once, left to right, registering every well-formed fenced
/// block in the table and batching each block whose tag resolves through
/// `config` into the group of its language.
pub fn get_code_blocks(data: &[u8], config: &Config) -> (r: (Blocks, Vec<LangBlocks>))
    ensures
        blocks_match_scan(data@, r.0.items@, spec_scan(data@, 0)),
        groups_wf(data@, *config, spec_scan(data@, 0), r.1@),
{
    let mut blocks = Blocks::new();
    let mut groups: Vec<LangBlocks> = Vec::new();
    let delim = delim_bytes();
    let nl = nl_bytes();
    let n: usize = data.len();
    let mut pos: usize = 0;
    let ghost mut done: Seq<ScanBlock> = Seq::empty();
    proof {
        assert(spec_scan(data@, 0) =~= done + spec_scan(data@, 0));
    }
    loop
        invariant
            n == data@.len(),
            pos <= n,
            delim@ == delim_spec(),
            nl@ == nl_spec(),
            spec_scan(data@, 0) == done + spec_scan(data@, pos as int),
            blocks_match_scan(data@, blocks.items@, done),
            groups_wf(data@, *config, done, groups@),
        ensures
            blocks_match_scan(data@, blocks.items@, spec_scan(data@, 0)),
            groups_wf(data@, *config, spec_scan(data@, 0), groups@),
        decreases n - pos,
    {
        let s = match find_from(data, delim.as_slice(), pos) {
            Some(s) => s,
            None => {
                proof {
                    assert(spec_scan(data@, pos as int) =~= Seq::<ScanBlock>::empty());
                    assert(done + spec_scan(data@, pos as int) =~= done);
                }
                break;
            },
        };
        proof {
            lemma_find_char(data@, delim_spec(), pos as int);
        }
        let e = match find_from(data, delim.as_slice(), s + 3) {
            Some(e) => e,
            None => {
                proof {
                    assert(spec_scan(data@, pos as int) =~= Seq::<ScanBlock>::empty());
                    assert(done + spec_scan(data@, pos as int) =~= done);
                }
                break;
            },
        };
        proof {
            lemma_find_char(data@, delim_spec(), s + 3 as int);
        }
        let nl_found = match find_from(data, nl.as_slice(), s) {
            Some(p) => if p < e {
                Some(p)
            } else {
                None
            },
            None => None,
        };
        match nl_found {
            Some(nlp) => {
                proof {
                    lemma_find_char(data@, nl_spec(), s as int);
                    lemma_nl_past_delim(data@, s as int, nlp as int);
                }
                let ghost nb = ScanBlock {
                    start: nlp + 1,
                    end: e as int,
                    tag: data@.subrange(s + 3, nlp as int),
                };
                proof {
                    assert(spec_scan(data@, pos as int) == seq![nb] + spec_scan(data@, e + 3));
                }
                let content = sub_to_vec(data, nlp + 1, e);
                let idx = blocks.push(Block { start: nlp + 1, end: e, data: content });
                let tag_slice = vstd::slice::slice_subrange(data, s + 3, nlp);
                let content_slice = vstd::slice::slice_subrange(data, nlp + 1, e);
                let ghost old_done = done;
                let ghost old_groups = groups@;
                proof {
                    done = done.push(nb);
                    assert(old_done + (seq![nb] + spec_scan(data@, e + 3)) =~= done + spec_scan(
                        data@,
                        e + 3,
                    ));
                    assert forall|k: int| 0 <= k < done.len() implies {
                        &&& blocks.items@[k].start == done[k].start
                        &&& blocks.items@[k].end == done[k].end
                        &&& blocks.items@[k].data@ == data@.subrange(done[k].start, done[k].end)
                    } by {
                        if k == old_done.len() {
                            assert(done[k] == nb);
                        }
                    }
                }
                match config.get_lang(tag_slice) {
                    Some(cfg) => {
                        match find_group(&groups, tag_slice) {
                            Some(gi) => {
                                let mut g = groups.remove(gi);
                                let ghost g0 = g;
                                g.add(content_slice, idx);
                                groups.insert(gi, g);
                                proof {
                                    assert(groups@ =~= old_groups.update(gi as int, groups@[gi as int]));
                                    lemma_group_add(
                                        data@,
                                        *config,
                                        old_done,
                                        nb,
                                        g0,
                                        groups@[gi as int],
                                    );
                                    assert forall|g2: int|
                                        0 <= g2 < groups@.len() implies group_wf(
                                        data@,
                                        *config,
                                        done,
                                        #[trigger] groups@[g2],
                                    ) by {
                                        if g2 != gi {
                                            assert(groups@[g2] == old_groups[g2]);
                                            assert(nb.tag != old_groups[g2].lang.name@);
                                            lemma_group_stable(
                                                data@,
                                                *config,
                                                old_done,
                                                nb,
                                                old_groups[g2],
                                            );
                                        }
                                    }
                                    assert forall|k: int|
                                        0 <= k < done.len() && spec_resolve(
                                            *config,
                                            (#[trigger] done[k]).tag,
                                        ) is Some implies exists|g2: int|
                                        0 <= g2 < groups@.len() && (#[trigger] groups@[g2].lang.name@)
                                            == done[k].tag by {
                                        if k < old_done.len() {
                                            assert(done[k] == old_done[k]);
                                            let g2 = choose|g2: int|
                                                0 <= g2 < old_groups.len() && (#[trigger] old_groups[g2].lang.name@)
                                                    == old_done[k].tag;
                                            assert(groups@[g2].lang.name@ == done[k].tag);
                                        } else {
                                            assert(done[k] == nb);
                                            assert(groups@[gi as int].lang.name@ == nb.tag);
                                        }
                                    }
                                }
                            },
                            None => {
                                proof {
                                    assert forall|k: int|
                                        0 <= k < old_done.len() implies (#[trigger] old_done[k]).tag
                                        != nb.tag by {
                                        if old_done[k].tag == nb.tag {
                                            let g2 = choose|g2: int|
                                                0 <= g2 < old_groups.len() && (#[trigger] old_groups[g2].lang.name@)
                                                    == old_done[k].tag;
                                            assert(false);
                                        }
                                    }
                                }
                                let lang = Language::new(copy_bytes(tag_slice), cfg);
                                let mut lb = LangBlocks::new(lang);
                                lb.add(content_slice, idx);
                                groups.push(lb);
                                proof {
                                    let gnew = groups@[old_groups.len() as int];
                                    assert(gnew.blocks@ =~= Seq::<usize>::empty().push(
                                        old_done.len() as usize,
                                    ));
                                    assert(gnew.joined_data@ =~= Seq::<u8>::empty()
                                        + gnew.lang.cfg.comment_token@ + sep_spec()
                                        + data@.subrange(nb.start, nb.end));
                                    lemma_group_new(
                                        data@,
                                        *config,
                                        old_done,
                                        nb,
                                        groups@[old_groups.len() as int],
                                    );
                                    assert forall|g2: int|
                                        0 <= g2 < groups@.len() implies group_wf(
                                        data@,
                                        *config,
                                        done,
                                        #[trigger] groups@[g2],
                                    ) by {
                                        if g2 < old_groups.len() {
                                            assert(groups@[g2] == old_groups[g2]);
                                            assert(nb.tag != old_groups[g2].lang.name@);
                                            lemma_group_stable(
                                                data@,
                                                *config,
                                                old_done,
                                                nb,
                                                old_groups[g2],
                                            );
                                        }
                                    }
                                    assert forall|k: int|
                                        0 <= k < done.len() && spec_resolve(
                                            *config,
                                            (#[trigger] done[k]).tag,
                                        ) is Some implies exists|g2: int|
                                        0 <= g2 < groups@.len() && (#[trigger] groups@[g2].lang.name@)
                                            == done[k].tag by {
                                        if k < old_done.len() {
                                            assert(done[k] == old_done[k]);
                                            let g2 = choose|g2: int|
                                                0 <= g2 < old_groups.len() && (#[trigger] old_groups[g2].lang.name@)
                                                    == old_done[k].tag;
                                            assert(groups@[g2].lang.name@ == done[k].tag);
                                        } else {
                                            assert(done[k] == nb);
                                            assert(groups@[old_groups.len() as int].lang.name@
                                                == nb.tag);
                                        }
                                    }
                                }
                            },
                        }
                    },
                    None => {
                        proof {
                            assert forall|g2: int|
                                0 <= g2 < groups@.len() implies group_wf(
                                data@,
                                *config,
                                done,
                                #[trigger] groups@[g2],
                            ) by {
                                assert(nb.tag != groups@[g2].lang.name@);
                                lemma_group_stable(data@, *config, old_done, nb, groups@[g2]);
                            }
                            assert forall|k: int|
                                0 <= k < done.len() && spec_resolve(
                                    *config,
                                    (#[trigger] done[k]).tag,
                                ) is Some implies exists|g2: int|
                                0 <= g2 < groups@.len() && (#[trigger] groups@[g2].lang.name@)
                                    == done[k].tag by {
                                if k < old_done.len() {
                                    assert(done[k] == old_done[k]);
                                } else {
                                    assert(done[k] == nb);
                                    assert(false);
                                }
                            }
                        }
                    },
                }
                pos = e + 3;
            },
            None => {
                proof {
                    lemma_find_char(data@, nl_spec(), s as int);
                    assert(spec_scan(data@, pos as int) == spec_scan(data@, e + 3));
                }
                pos = e + 3;
            },
        }
    }
    (blocks, groups)
}

/// Why one language's formatting pass failed.
#[derive(Debug, PartialEq, Eq, Structural)]
pub enum FormatError {
    SpawnFailure,
    WriteFailure,
    ReadFailure,
    ExitFailure,
    DecodeFailure,
    FragmentCountMismatch { expected: usize, got: usize },
}

/// The boundary line between batched blocks: the language's comment token
/// followed by the marker.
pub open spec fn boundary(token: Seq<u8>) -> Seq<u8> {
    token + sep_spec()
}

/// The non-empty pieces of `h` between occurrences of `sep`, in order:
/// the split of a formatter's combined output back into per-block fragments.
pub open spec fn spec_fragments(h: Seq<u8>, sep: Seq<u8>) -> Seq<Seq<u8>>
    decreases h.len(),
    when sep.len() > 0
    via spec_fragments_dec
{
    match spec_find(h, sep, 0) {
        None => if h.len() > 0 {
            seq![h]
        } else {
            Seq::empty()
        },
        Some(i) => {
            let head = if i > 0 {
                seq![h.subrange(0, i)]
            } else {
                Seq::<Seq<u8>>::empty()
            };
            head + spec_fragments(h.subrange(i + sep.len(), h.len() as int), sep)
        },
    }
}

#[via_fn]
proof fn spec_fragments_dec(h: Seq<u8>, sep: Seq<u8>) {
    lemma_find_char(h, sep, 0);
}

/// Splits `output` on `sep`, keeping the non-empty pieces in order.
pub fn split_fragments(output: &[u8], sep: &[u8]) -> (r: Vec<Vec<u8>>)
    requires
        sep@.len() > 0,
    ensures
        r@.len() == spec_fragments(output@, sep@).len(),
        forall|j: int| 0 <= j < r@.len() ==> (#[trigger] r@[j])@ == spec_fragments(output@, sep@)[j],
{
    let n: usize = output.len();
    let mut r: Vec<Vec<u8>> = Vec::new();
    let mut pos: usize = 0;
    proof {
        assert(output@.subrange(0, n as int) =~= output@);
        assert(r@.map_values(|v: Vec<u8>| v@) =~= Seq::<Seq<u8>>::empty());
    }
    loop
        invariant_except_break
            spec_fragments(output@, sep@) == r@.map_values(|v: Vec<u8>| v@) + spec_fragments(
                output@.subrange(pos as int, n as int),
                sep@,
            ),
        invariant
            n == output@.len(),
            pos <= n,
            sep@.len() > 0,
        ensures
            spec_fragments(output@, sep@) == r@.map_values(|v: Vec<u8>| v@),
        decreases n - pos,
    {
        let ghost rest = output@.subrange(pos as int, n as int);
        proof {
            crate::bytes::lemma_find_suffix(output@, sep@, pos as int);
        }
        match find_from(output, sep, pos) {
            Some(i) => {
                proof {
                    lemma_find_char(output@, sep@, pos as int);
                    assert(spec_find(rest, sep@, 0) == Some(i - pos));
                    assert(rest.subrange(0, i - pos) =~= output@.subrange(pos as int, i as int));
                    assert(rest.subrange(i - pos + sep@.len(), rest.len() as int) =~= output@
                        .subrange(i + sep@.len(), n as int));
                }
                let ghost rmap0 = r@.map_values(|v: Vec<u8>| v@);
                let ghost tailfrags = spec_fragments(
                    output@.subrange(i + sep@.len(), n as int),
                    sep@,
                );
                if i > pos {
                    proof {
                        assert(spec_fragments(rest, sep@) == seq![rest.subrange(0, i - pos)]
                            + tailfrags);
                    }
                    let piece = sub_to_vec(output, pos, i);
                    r.push(piece);
                    proof {
                        assert(r@.map_values(|v: Vec<u8>| v@) =~= rmap0.push(
                            output@.subrange(pos as int, i as int),
                        ));
                        assert(rmap0 + (seq![output@.subrange(pos as int, i as int)] + tailfrags)
                            =~= r@.map_values(|v: Vec<u8>| v@) + tailfrags);
                    }
                } else {
                    proof {
                        assert(spec_fragments(rest, sep@) == Seq::<Seq<u8>>::empty() + tailfrags);
                        assert(rmap0 + (Seq::<Seq<u8>>::empty() + tailfrags) =~= rmap0
                            + tailfrags);
                    }
                }
                pos = i + sep.len();
            },
            None => {
                if pos < n {
                    let piece = sub_to_vec(output, pos, n);
                    r.push(piece);
                    proof {
                        assert(rest.len() > 0);
                        assert(spec_fragments(rest, sep@) == seq![rest]);
                        assert(r@.map_values(|v: Vec<u8>| v@) =~= r@.drop_last().map_values(
                            |v: Vec<u8>| v@,
                        ).push(rest));
                        assert(spec_fragments(output@, sep@) =~= r@.map_values(|v: Vec<u8>| v@));
                    }
                } else {
                    proof {
                        assert(rest.len() == 0);
                        assert(spec_fragments(rest, sep@) =~= Seq::<Seq<u8>>::empty());
                        assert(spec_fragments(output@, sep@) =~= r@.map_values(|v: Vec<u8>| v@));
                    }
                }
                break;
            },
        }
    }
    r
}

impl LangBlocks {
    /// Splits the formatter's combined `output` on this language's boundary
    /// line and stores the i-th non-empty fragment as the content of the i-th
    /// block owned by this group, in the order the blocks were batched.
    /// Blocks of other groups are untouched.  Returns an error reporting the
    /// counts when the formatter produced a different number of fragments
    /// than this group owns: blocks without a fragment keep their previous
    /// content, and fragments beyond the group's blocks are dropped.
    pub fn apply_output(&self, blocks: &mut Blocks, output: &[u8]) -> (r: Result<
        (),
        FormatError,
    >)
        requires
            forall|j: int|
                0 <= j < self.blocks@.len() ==> (#[trigger] self.blocks@[j]) < old(
                    blocks,
                ).items@.len(),
            forall|j1: int, j2: int|
                0 <= j1 < j2 < self.blocks@.len() ==> self.blocks@[j1] < self.blocks@[j2],
        ensures
            ({
                let frags = spec_fragments(output@, boundary(self.lang.cfg.comment_token@));
                let m = if frags.len() < self.blocks@.len() {
                    frags.len() as int
                } else {
                    self.blocks@.len() as int
                };
                &&& final(blocks).items@.len() == old(blocks).items@.len()
                &&& forall|j: int|
                    0 <= j < m ==> {
                        &&& (#[trigger] final(blocks).items@[self.blocks@[j] as int]).data@
                            == frags[j]
                        &&& final(blocks).items@[self.blocks@[j] as int].start == old(
                            blocks,
                        ).items@[self.blocks@[j] as int].start
                        &&& final(blocks).items@[self.blocks@[j] as int].end == old(
                            blocks,
                        ).items@[self.blocks@[j] as int].end
                    }
                &&& forall|i: int|
                    0 <= i < old(blocks).items@.len() && !self.blocks@.subrange(0, m).contains(
                        i as usize,
                    ) ==> (#[trigger] final(blocks).items@[i]) == old(blocks).items@[i]
                &&& (r is Ok <==> frags.len() == self.blocks@.len())
                &&& (frags.len() != self.blocks@.len() ==> r == Err::<(), FormatError>(
                    FormatError::FragmentCountMismatch {
                        expected: self.blocks@.len() as usize,
                        got: frags.len() as usize,
                    },
                ))
            }),
    {
        let mut sep = copy_bytes(self.lang.cfg.comment_token.as_slice());
        let mut marker = sep_bytes();
        sep.append(&mut marker);
        proof {
            assert(sep@ == boundary(self.lang.cfg.comment_token@));
            assert(sep@.len() >= sep_spec().len());
        }
        let frags = split_fragments(output, sep.as_slice());
        let ghost sfrags = spec_fragments(output@, boundary(self.lang.cfg.comment_token@));
        let m = if frags.len() < self.blocks.len() {
            frags.len()
        } else {
            self.blocks.len()
        };
        let mut j: usize = 0;
        while j < m
            invariant
                m <= frags@.len(),
                m <= self.blocks@.len(),
                j <= m,
                frags@.len() == sfrags.len(),
                forall|j2: int| 0 <= j2 < frags@.len() ==> (#[trigger] frags@[j2])@ == sfrags[j2],
                forall|j2: int|
                    0 <= j2 < self.blocks@.len() ==> (#[trigger] self.blocks@[j2])
                        < blocks.items@.len(),
                forall|j1: int, j2: int|
                    0 <= j1 < j2 < self.blocks@.len() ==> self.blocks@[j1] < self.blocks@[j2],
                blocks.items@.len() == old(blocks).items@.len(),
                forall|j2: int|
                    0 <= j2 < j ==> {
                        &&& (#[trigger] blocks.items@[self.blocks@[j2] as int]).data@ == sfrags[j2]
                        &&& blocks.items@[self.blocks@[j2] as int].start == old(
                            blocks,
                        ).items@[self.blocks@[j2] as int].start
                        &&& blocks.items@[self.blocks@[j2] as int].end == old(
                            blocks,
                        ).items@[self.blocks@[j2] as int].end
                    },
                forall|i: int|
                    0 <= i < old(blocks).items@.len() && !self.blocks@.subrange(
                        0,
                        j as int,
                    ).contains(i as usize) ==> (#[trigger] blocks.items@[i]) == old(
                        blocks,
                    ).items@[i],
            decreases m - j,
        {
            let idx = self.blocks[j];
            let data = copy_bytes(frags[j].as_slice());
            let ghost pre = blocks.items@;
            blocks.set_data(idx, data);
            proof {
                assert forall|i: int|
                    0 <= i < old(blocks).items@.len() && !self.blocks@.subrange(
                        0,
                        j + 1,
                    ).contains(i as usize) implies (#[trigger] blocks.items@[i]) == old(
                    blocks,
                ).items@[i] by {
                    let pref1 = self.blocks@.subrange(0, j + 1);
                    assert(pref1[j as int] == idx);
                    if i == idx {
                        assert(pref1.contains(i as usize));
                        assert(false);
                    } else {
                        if self.blocks@.subrange(0, j as int).contains(i as usize) {
                            let jj = choose|jj: int|
                                0 <= jj < j && self.blocks@.subrange(0, j as int)[jj]
                                    == i as usize;
                            assert(pref1[jj] == i as usize);
                            assert(pref1.contains(i as usize));
                            assert(false);
                        }
                        assert(pre[i] == old(blocks).items@[i]);
                        assert(blocks.items@[i] == pre[i]);
                    }
                }
                assert forall|j2: int|
                    0 <= j2 < j + 1 implies {
                    &&& (#[trigger] blocks.items@[self.blocks@[j2] as int]).data@ == sfrags[j2]
                    &&& blocks.items@[self.blocks@[j2] as int].start == old(
                        blocks,
                    ).items@[self.blocks@[j2] as int].start
                    &&& blocks.items@[self.blocks@[j2] as int].end == old(
                        blocks,
                    ).items@[self.blocks@[j2] as int].end
                } by {
                    if j2 < j {
                        assert(self.blocks@[j2] < idx);
                        assert(blocks.items@[self.blocks@[j2] as int] == pre[self.blocks@[j2]
                            as int]);
                    }
                }
            }
            j = j + 1;
        }
        if frags.len() == self.blocks.len() {
            Ok(())
        } else {
            Err(
                FormatError::FragmentCountMismatch {
                    expected: self.blocks.len(),
                    got: frags.len(),
                },
            )
        }
    }
}

/// The block table is fit for reassembly: every range lies inside the
/// document and the ranges appear in ascending order.
pub open spec fn table_wf(data: Seq<u8>, bs: Seq<Block>) -> bool {
    forall|k: int|
        #![trigger bs[k]]
        0 <= k < bs.len() ==> {
            &&& bs[k].start <= bs[k].end <= data.len()
            &&& (k + 1 < bs.len() ==> bs[k].end <= bs[k + 1].start)
        }
}

/// The reassembled document from block `k` on, with the copy cursor at
/// `cursor`: the document bytes between blocks verbatim, each block's
/// current content in place of its byte range, and the tail of the document
/// after the last block.
pub open spec fn spec_reassemble(data: Seq<u8>, bs: Seq<Block>, k: int, cursor: int) -> Seq<u8>
    decreases bs.len() - k,
{
    if k < 0 || k >= bs.len() {
        data.subrange(cursor, data.len() as int)
    } else {
        data.subrange(cursor, bs[k].start as int) + bs[k].data@ + spec_reassemble(
            data,
            bs,
            k + 1,
            bs[k].end as int,
        )
    }
}

/// Walks the table in ascending order, emitting the document bytes before
/// each block verbatim, then the block's current content, and finally the
/// document bytes after the last block.
pub fn reassemble(data: &[u8], blocks: &Blocks) -> (out: Vec<u8>)
    requires
        table_wf(data@, blocks.items@),
    ensures
        out@ == spec_reassemble(data@, blocks.items@, 0, 0),
{
    let n: usize = data.len();
    let mut out: Vec<u8> = Vec::new();
    let mut cursor: usize = 0;
    let mut k: usize = 0;
    while k < blocks.items.len()
        invariant
            n == data@.len(),
            table_wf(data@, blocks.items@),
            k <= blocks.items@.len(),
            cursor <= n,
            k < blocks.items@.len() ==> cursor <= blocks.items@[k as int].start,
            spec_reassemble(data@, blocks.items@, 0, 0) == out@ + spec_reassemble(
                data@,
                blocks.items@,
                k as int,
                cursor as int,
            ),
        decreases blocks.items@.len() - k,
    {
        let ghost out0 = out@;
        let ghost cursor0 = cursor;
        let b_start = blocks.items[k].start;
        let b_end = blocks.items[k].end;
        append_range(&mut out, data, cursor, b_start);
        let b_len = blocks.items[k].data.len();
        append_range(&mut out, blocks.items[k].data.as_slice(), 0, b_len);
        proof {
            assert(blocks.items@[k as int].data@.subrange(0, b_len as int) =~= blocks.items@[k
                as int].data@);
            assert(spec_reassemble(data@, blocks.items@, k as int, cursor0 as int) == data@
                .subrange(cursor0 as int, b_start as int) + blocks.items@[k as int].data@
                + spec_reassemble(data@, blocks.items@, k + 1, b_end as int));
            assert(out@ =~= out0 + (data@.subrange(cursor0 as int, b_start as int)
                + blocks.items@[k as int].data@));
            assert(out0 + (data@.subrange(cursor0 as int, b_start as int) + blocks.items@[k
                as int].data@ + spec_reassemble(data@, blocks.items@, k + 1, b_end as int)) =~= out@
                + spec_reassemble(data@, blocks.items@, k + 1, b_end as int));
        }
        cursor = b_end;
        k = k + 1;
    }
    append_range(&mut out, data, cursor, n);
    proof {
        assert(spec_reassemble(data@, blocks.items@, k as int, cursor as int) == data@.subrange(
            cursor as int,
            n as int,
        ));
    }
    out
}

/// A table whose ranges come from the scan is fit for reassembly.
pub proof fn lemma_scan_table_wf(data: Seq<u8>, items: Seq<Block>)
    requires
        items.len() == spec_scan(data, 0).len(),
        forall|k: int|
            #![trigger items[k]]
            0 <= k < items.len() ==> items[k].start == spec_scan(data, 0)[k].start && items[k].end
                == spec_scan(data, 0)[k].end,
    ensures
        table_wf(data, items),
{
    lemma_scan_wf(data, 0);
}

proof fn lemma_reassemble_identity_from(data: Seq<u8>, bs: Seq<Block>, k: int, cursor: int)
    requires
        table_wf(data, bs),
        forall|k2: int|
            #![trigger bs[k2]]
            0 <= k2 < bs.len() ==> bs[k2].data@ == data.subrange(bs[k2].start as int, bs[k2].end as int),
        0 <= k,
        0 <= cursor <= data.len(),
        k < bs.len() ==> cursor <= bs[k].start,
    ensures
        spec_reassemble(data, bs, k, cursor) == data.subrange(cursor, data.len() as int),
    decreases bs.len() - k,
{
    if k < bs.len() {
        lemma_reassemble_identity_from(data, bs, k + 1, bs[k].end as int);
        assert(data.subrange(cursor, bs[k].start as int) + data.subrange(
            bs[k].start as int,
            bs[k].end as int,
        ) + data.subrange(bs[k].end as int, data.len() as int) =~= data.subrange(
            cursor,
            data.len() as int,
        ));
    }
}

/// A table whose blocks all still hold their extracted content reassembles
/// to the document itself.  In particular, a document none of whose blocks
/// bears a recognized language is never rewritten: the output equals the
/// input byte for byte.
pub proof fn lemma_untouched_output_is_input(data: Seq<u8>, items: Seq<Block>)
    requires
        blocks_match_scan(data, items, spec_scan(data, 0)),
    ensures
        spec_reassemble(data, items, 0, 0) == data,
{
    lemma_scan_table_wf(data, items);
    lemma_reassemble_identity_from(data, items, 0, 0);
    assert(data.subrange(0, data.len() as int) =~= data);
}

/// Scanned blocks appear in strictly ascending byte ranges: an earlier block
/// ends before a later one starts.
pub proof fn lemma_scan_ordered(data: Seq<u8>, k1: int, k2: int)
    requires
        0 <= k1 < k2 < spec_scan(data, 0).len(),
    ensures
        spec_scan(data, 0)[k1].end <= spec_scan(data, 0)[k2].start,
    decreases k2 - k1,
{
    lemma_scan_wf(data, 0);
    let sb = spec_scan(data, 0);
    if k1 + 1 == k2 {
    } else {
        lemma_scan_ordered(data, k1 + 1, k2);
        assert(sb[k1].end + 3 <= sb[k1 + 1].start);
        assert(sb[k1 + 1].start <= sb[k1 + 1].end);
    }
}

/// The K-th block a group batches is the K-th block of its language in
/// document order: along a group's index list the blocks' byte ranges
/// ascend, so the K-th output fragment lands in the K-th such region of the
/// document, never permuted.
pub proof fn lemma_group_document_order(
    data: Seq<u8>,
    c: Config,
    groups: Seq<LangBlocks>,
    g: int,
    j1: int,
    j2: int,
)
    requires
        groups_wf(data, c, spec_scan(data, 0), groups),
        0 <= g < groups.len(),
        0 <= j1 < j2 < groups[g].blocks@.len(),
    ensures
        spec_scan(data, 0)[groups[g].blocks@[j1] as int].end <= spec_scan(data, 0)[groups[g].blocks@[j2] as int].start,
{
    assert(groups[g].blocks@[j1] < groups[g].blocks@[j2]);
    lemma_scan_ordered(
        data,
        groups[g].blocks@[j1] as int,
        groups[g].blocks@[j2] as int,
    );
}

/// The extractor's groups satisfy `apply_output`'s preconditions on the
/// extractor's table: every owned index addresses a block of the table and
/// the indices come in document order.
pub proof fn lemma_groups_fit_table(
    data: Seq<u8>,
    c: Config,
    sb: Seq<ScanBlock>,
    items: Seq<Block>,
    groups: Seq<LangBlocks>,
    g: int,
)
    requires
        blocks_match_scan(data, items, sb),
        groups_wf(data, c, sb, groups),
        0 <= g < groups.len(),
    ensures
        forall|j: int| 0 <= j < groups[g].blocks@.len() ==> (#[trigger] groups[g].blocks@[j])
            < items.len(),
        forall|j1: int, j2: int|
            0 <= j1 < j2 < groups[g].blocks@.len() ==> groups[g].blocks@[j1]
                < groups[g].blocks@[j2],
{
}

/// A pass that only replaces block contents leaves the table fit for
/// reassembly: the byte ranges are untouched.
pub proof fn lemma_table_wf_preserved(data: Seq<u8>, before: Seq<Block>, after: Seq<Block>)
    requires
        table_wf(data, before),
        after.len() == before.len(),
        forall|k: int|
            0 <= k < after.len() ==> (#[trigger] after[k]).start == before[k].start && after[k].end
                == before[k].end,
    ensures
        table_wf(data, after),
{
}

/// A block whose tag resolves to no configuration belongs to no language
/// group, so no formatting pass ever touches its content.
pub proof fn lemma_unknown_block_not_grouped(
    data: Seq<u8>,
    c: Config,
    sb: Seq<ScanBlock>,
    groups: Seq<LangBlocks>,
    k: int,
)
    requires
        groups_wf(data, c, sb, groups),
        0 <= k < sb.len(),
        spec_resolve(c, sb[k].tag) is None,
    ensures
        forall|g: int| 0 <= g < groups.len() ==> !(#[trigger] groups[g].blocks@).contains(
            k as usize,
        ),
{
    assert forall|g: int| 0 <= g < groups.len() implies !(#[trigger] groups[g].blocks@).contains(
        k as usize,
    ) by {
        if groups[g].blocks@.contains(k as usize) {
            assert(sb[k].tag == groups[g].lang.name@);
            assert(spec_resolve(c, groups[g].lang.name@) is Some);
            assert(false);
        }
    }
}

/// Two distinct language groups own disjoint block-index sets, so the
/// formatting passes of different languages never write to the same block.
pub proof fn lemma_groups_disjoint(
    data: Seq<u8>,
    c: Config,
    sb: Seq<ScanBlock>,
    groups: Seq<LangBlocks>,
    g1: int,
    g2: int,
    idx: usize,
)
    requires
        groups_wf(data, c, sb, groups),
        0 <= g1 < groups.len(),
        0 <= g2 < groups.len(),
        g1 != g2,
        groups[g1].blocks@.contains(idx),
    ensures
        !groups[g2].blocks@.contains(idx),
{
    let j = choose|j: int| 0 <= j < groups[g1].blocks@.len() && groups[g1].blocks@[j] == idx;
    assert(idx < sb.len());
    let k = idx as int;
    assert(k as usize == idx);
    assert(groups[g1].blocks@.contains(k as usize));
    assert(sb[k].tag == groups[g1].lang.name@);
    if groups[g2].blocks@.contains(idx) {
        assert(groups[g2].blocks@.contains(k as usize));
        assert(sb[k].tag == groups[g2].lang.name@);
        assert(false);
    }
}

proof fn lemma_emit_from(data: Seq<u8>, bs: Seq<Block>, j: int, cursor: int, k: int)
    requires
        table_wf(data, bs),
        0 <= j <= k < bs.len(),
        0 <= cursor <= data.len(),
        cursor <= bs[j].start,
    ensures
        exists|p: Seq<u8>, q: Seq<u8>|
            spec_reassemble(data, bs, j, cursor) == p + bs[k].data@ + q,
    decreases k - j,
{
    if j == k {
        let p = data.subrange(cursor, bs[k].start as int);
        let q = spec_reassemble(data, bs, k + 1, bs[k].end as int);
        assert(spec_reassemble(data, bs, j, cursor) == p + bs[k].data@ + q);
    } else {
        lemma_emit_from(data, bs, j + 1, bs[j].end as int, k);
        let (p2, q2) = choose|p2: Seq<u8>, q2: Seq<u8>|
            spec_reassemble(data, bs, j + 1, bs[j].end as int) == p2 + bs[k].data@ + q2;
        let p = data.subrange(cursor, bs[j].start as int) + bs[j].data@ + p2;
        assert(spec_reassemble(data, bs, j, cursor) =~= p + bs[k].data@ + q2);
    }
}

/// Every block's current content appears contiguously in the reassembled
/// output.  For a block no formatting pass touched — one of an unrecognized
/// language — that content is still the document's own bytes, so the region
/// is emitted unchanged, internal whitespace included.
pub proof fn lemma_block_content_emitted(data: Seq<u8>, bs: Seq<Block>, k: int)
    requires
        table_wf(data, bs),
        0 <= k < bs.len(),
    ensures
        exists|p: Seq<u8>, q: Seq<u8>| spec_reassemble(data, bs, 0, 0) == p + bs[k].data@ + q,
{
    lemma_emit_from(data, bs, 0, 0, k);
}

proof fn lemma_reassemble_suffix_from(
    data: Seq<u8>,
    bs: Seq<Block>,
    k: int,
    cursor: int,
    s: int,
)
    requires
        table_wf(data, bs),
        0 <= k,
        0 <= cursor <= s <= data.len(),
        k < bs.len() ==> cursor <= bs[k].start,
        forall|k2: int| k <= k2 < bs.len() ==> (#[trigger] bs[k2].end) <= s,
        forall|k2: int| k <= k2 < bs.len() ==> (#[trigger] bs[k2].start) <= s,
    ensures
        exists|p: Seq<u8>|
            spec_reassemble(data, bs, k, cursor) == p + data.subrange(s, data.len() as int),
    decreases bs.len() - k,
{
    if k >= bs.len() {
        let p = data.subrange(cursor, s);
        assert(spec_reassemble(data, bs, k, cursor) =~= p + data.subrange(s, data.len() as int));
    } else {
        lemma_reassemble_suffix_from(data, bs, k + 1, bs[k].end as int, s);
        let p2 = choose|p2: Seq<u8>|
            spec_reassemble(data, bs, k + 1, bs[k].end as int) == p2 + data.subrange(
                s,
                data.len() as int,
            );
        let p = data.subrange(cursor, bs[k].start as int) + bs[k].data@ + p2;
        assert(spec_reassemble(data, bs, k, cursor) =~= p + data.subrange(s, data.len() as int));
    }
}

/// Nothing at or after the final fence delimiter is ever rewritten: when no
/// delimiter occurs after position `s`, the reassembled output ends with the
/// document's bytes from `s` on, whatever contents the blocks hold.  An
/// unterminated trailing opening fence and all text following it are thus
/// emitted unchanged.
pub proof fn lemma_trailing_fence_preserved(data: Seq<u8>, items: Seq<Block>, s: int)
    requires
        items.len() == spec_scan(data, 0).len(),
        forall|k: int|
            #![trigger items[k]]
            0 <= k < items.len() ==> items[k].start == spec_scan(data, 0)[k].start && items[k].end
                == spec_scan(data, 0)[k].end,
        0 <= s <= data.len(),
        forall|j: int| s < j ==> !match_at(data, delim_spec(), j),
    ensures
        exists|p: Seq<u8>|
            spec_reassemble(data, items, 0, 0) == p + data.subrange(s, data.len() as int),
{
    lemma_scan_table_wf(data, items);
    lemma_scan_wf(data, 0);
    assert forall|k2: int| 0 <= k2 < items.len() implies (#[trigger] items[k2].end) <= s by {
        assert(match_at(data, delim_spec(), items[k2].end as int));
        if items[k2].end > s {
            assert(false);
        }
    }
    assert forall|k2: int| 0 <= k2 < items.len() implies (#[trigger] items[k2].start) <= s by {
        assert(items[k2].start <= items[k2].end);
    }
    lemma_reassemble_suffix_from(data, items, 0, 0, s);
}

} // verus!
