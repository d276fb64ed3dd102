use codefmt::code_blocks::Blocks;
use codefmt::config::Config;
use codefmt::config::LanguageConfig;
use codefmt::format::get_code_blocks;
use codefmt::format::reassemble;
use codefmt::format::split_fragments;
use codefmt::format::FormatError;

fn lang(formatter: &[&str], token: &str) -> LanguageConfig {
    LanguageConfig {
        formatter: formatter.iter().map(|a| a.as_bytes().to_vec()).collect(),
        comment_token: token.as_bytes().to_vec(),
    }
}

fn sample_config() -> Config {
    Config {
        languages: vec![
            (b"rust".to_vec(), lang(&["rustfmt"], "//")),
            (b"zig".to_vec(), lang(&["zig", "fmt", "--stdin"], "//")),
        ],
        aliases: vec![(b"rs".to_vec(), b"rust".to_vec())],
    }
}

fn boundary(token: &[u8]) -> Vec<u8> {
    let mut b = token.to_vec();
    b.extend_from_slice(b"__mdfmt__\n");
    b
}

/// A stand-in for an external formatter: trims the fragment and terminates
/// it with one newline.  Idempotent by construction.
fn fmt_fragment(f: &[u8]) -> Vec<u8> {
    let s = std::str::from_utf8(f).unwrap();
    let mut out = s.trim().as_bytes().to_vec();
    out.push(b'\n');
    out
}

/// Runs the whole pipeline, standing in for each language's external
/// formatter with `fmt_fragment`.
fn run_pipeline(data: &str, config: &Config) -> String {
    let (mut blocks, groups) = get_code_blocks(data.as_bytes(), config);
    for g in &groups {
        let b = boundary(&g.lang.cfg.comment_token);
        let frags = split_fragments(&g.joined_data, &b);
        let mut out: Vec<u8> = Vec::new();
        for f in &frags {
            out.extend_from_slice(&b);
            out.extend_from_slice(&fmt_fragment(f));
        }
        g.apply_output(&mut blocks, &out).unwrap();
    }
    String::from_utf8(reassemble(data.as_bytes(), &blocks)).unwrap()
}

#[test]
fn test_get_code_blocks() {
    let config = sample_config();
    let data = r#"
            test markdown data

            ```rust
                fn testing(){}
            ```
        "#;
    let (blocks, map) = get_code_blocks(data.as_bytes(), &config);
    assert_eq!(blocks.items.len(), 1);
    assert_eq!(map.len(), 1);

    let code = &blocks.items[0];
    assert_eq!(code.start, 53);
    assert_eq!(code.end, 96);
}

#[test]
fn no_recognized_blocks_output_equals_input() {
    let config = sample_config();
    let data = "plain prose\n```python\nx = 1\n```\nmore prose\n";
    let (blocks, groups) = get_code_blocks(data.as_bytes(), &config);
    assert!(groups.is_empty());
    let out = reassemble(data.as_bytes(), &blocks);
    assert_eq!(out, data.as_bytes().to_vec());
}

#[test]
fn no_fences_output_equals_input() {
    let config = sample_config();
    let data = "nothing fenced here at all\n";
    assert_eq!(run_pipeline(data, &config), data);
}

#[test]
fn formats_single_block() {
    let config = sample_config();
    let data = "intro\n```rust\nfn test(){}\n```\noutro\n";
    let (mut blocks, groups) = get_code_blocks(data.as_bytes(), &config);
    assert_eq!(groups.len(), 1);
    assert_eq!(groups[0].lang.name, b"rust".to_vec());
    assert_eq!(groups[0].joined_data, b"//__mdfmt__\nfn test(){}\n".to_vec());

    let output = b"//__mdfmt__\nfn test() {}\n".to_vec();
    groups[0].apply_output(&mut blocks, &output).unwrap();
    let out = reassemble(data.as_bytes(), &blocks);
    assert_eq!(
        String::from_utf8(out).unwrap(),
        "intro\n```rust\nfn test() {}\n```\noutro\n"
    );
}

#[test]
fn unknown_language_block_is_untouched() {
    let config = sample_config();
    let data = "a\n```rust\nfn f(){}\n```\nb\n```mystery\n  spaced   out  \n```\nc\n";
    let out = run_pipeline(data, &config);
    assert!(out.contains("```mystery\n  spaced   out  \n```"));
    assert!(out.contains("```rust\nfn f(){}\n```"));
}

#[test]
fn unterminated_trailing_fence_is_untouched() {
    let config = sample_config();
    let data = "a\n```rust\nfn f(){}\n```\ntail\n``` rust\nnever closed\n";
    let out = run_pipeline(data, &config);
    assert!(out.ends_with("tail\n``` rust\nnever closed\n"));
}

#[test]
fn malformed_pair_without_newline_is_skipped() {
    let config = sample_config();
    let data = "before ```rust``` after\n";
    let (blocks, groups) = get_code_blocks(data.as_bytes(), &config);
    assert_eq!(blocks.items.len(), 0);
    assert!(groups.is_empty());
    let out = reassemble(data.as_bytes(), &blocks);
    assert_eq!(out, data.as_bytes().to_vec());
}

#[test]
fn pipeline_is_idempotent_with_idempotent_formatter() {
    let config = sample_config();
    let data = "a\n```rust\n   fn test(){}   \n```\nb\n```zig\n  const x = 1;  \n```\nc\n";
    let once = run_pipeline(data, &config);
    let twice = run_pipeline(&once, &config);
    assert_eq!(once, twice);
}

#[test]
fn two_languages_two_groups_order_independent() {
    let config = sample_config();
    let data_ab = "p\n```rust\nfn a(){}\n```\nq\n```zig\nconst b=2;\n```\nr\n";
    let data_ba = "p\n```zig\nconst b=2;\n```\nq\n```rust\nfn a(){}\n```\nr\n";

    let (_, groups_ab) = get_code_blocks(data_ab.as_bytes(), &config);
    assert_eq!(groups_ab.len(), 2);
    let rust_g = groups_ab.iter().find(|g| g.lang.name == b"rust".to_vec()).unwrap();
    let zig_g = groups_ab.iter().find(|g| g.lang.name == b"zig".to_vec()).unwrap();
    assert_eq!(rust_g.joined_data, b"//__mdfmt__\nfn a(){}\n".to_vec());
    assert_eq!(zig_g.joined_data, b"//__mdfmt__\nconst b=2;\n".to_vec());

    let out_ab = run_pipeline(data_ab, &config);
    let out_ba = run_pipeline(data_ba, &config);
    assert!(out_ab.contains("```rust\nfn a(){}\n```"));
    assert!(out_ab.contains("```zig\nconst b=2;\n```"));
    assert!(out_ba.contains("```rust\nfn a(){}\n```"));
    assert!(out_ba.contains("```zig\nconst b=2;\n```"));
}

#[test]
fn apply_order_across_groups_does_not_matter() {
    let config = sample_config();
    let data = "p\n```rust\nfn a( ){}\n```\nq\n```zig\nconst b =2;\n```\nr\n";
    let outputs = |g: &codefmt::code_blocks::LangBlocks| -> Vec<u8> {
        let b = boundary(&g.lang.cfg.comment_token);
        let frags = split_fragments(&g.joined_data, &b);
        let mut out: Vec<u8> = Vec::new();
        for f in &frags {
            out.extend_from_slice(&b);
            out.extend_from_slice(&fmt_fragment(f));
        }
        out
    };

    let reassembled = |order: [usize; 2]| -> Vec<u8> {
        let (mut blocks, groups): (Blocks, _) = get_code_blocks(data.as_bytes(), &config);
        for &gi in order.iter() {
            let out = outputs(&groups[gi]);
            groups[gi].apply_output(&mut blocks, &out).unwrap();
        }
        reassemble(data.as_bytes(), &blocks)
    };

    assert_eq!(reassembled([0, 1]), reassembled([1, 0]));
}

#[test]
fn fragment_shortfall_reported_and_last_block_kept() {
    let config = sample_config();
    let data = "p\n```rust\nfn a(){}\n```\nq\n```rust\nfn b(){}\n```\nr\n";
    let (mut blocks, groups) = get_code_blocks(data.as_bytes(), &config);
    assert_eq!(groups.len(), 1);
    assert_eq!(groups[0].blocks.len(), 2);

    // One fragment for two blocks.
    let output = b"//__mdfmt__\nfn a() {}\n".to_vec();
    let r = groups[0].apply_output(&mut blocks, &output);
    assert_eq!(
        r,
        Err(FormatError::FragmentCountMismatch { expected: 2, got: 1 })
    );
    let out = String::from_utf8(reassemble(data.as_bytes(), &blocks)).unwrap();
    assert!(out.contains("```rust\nfn a() {}\n```"));
    assert!(out.contains("```rust\nfn b(){}\n```"));
}

#[test]
fn split_fragments_drops_empty_pieces() {
    let sep = b"//__mdfmt__\n".to_vec();
    let out = b"//__mdfmt__\nalpha\n//__mdfmt__\nbeta\n".to_vec();
    let frags = split_fragments(&out, &sep);
    assert_eq!(frags, vec![b"alpha\n".to_vec(), b"beta\n".to_vec()]);

    let no_sep = b"just one piece".to_vec();
    let frags2 = split_fragments(&no_sep, &sep);
    assert_eq!(frags2, vec![b"just one piece".to_vec()]);

    let empty: Vec<u8> = Vec::new();
    let frags3 = split_fragments(&empty, &sep);
    assert!(frags3.is_empty());
}
