use dtbrowse::classify::{classify, DisplayValue};
use dtbrowse::decoder::{build, load, token_for_error, Decoder};
use dtbrowse::error::DtbError;
use dtbrowse::filter::{compute_visibility, contains_bytes, name_matches_query};
use dtbrowse::tree::{build_from_tokens, Token, Tree, TreeBuilder};

// ---- a small blob writer ----

enum Item<'a> {
    Begin(&'a str),
    Prop(&'a str, &'a [u8]),
    End,
}

fn be(out: &mut Vec<u8>, v: u32) {
    out.extend_from_slice(&v.to_be_bytes());
}

fn pad(out: &mut Vec<u8>) {
    while out.len() % 4 != 0 {
        out.push(0);
    }
}

/// Struct block for the items, then the end token; property names go to a strings block.
fn struct_block(items: &[Item], strings: &mut Vec<u8>) -> Vec<u8> {
    let mut s = Vec::new();
    for it in items {
        match it {
            Item::Begin(name) => {
                be(&mut s, 1);
                s.extend_from_slice(name.as_bytes());
                s.push(0);
                pad(&mut s);
            }
            Item::Prop(name, value) => {
                let off = strings.len() as u32;
                strings.extend_from_slice(name.as_bytes());
                strings.push(0);
                be(&mut s, 3);
                be(&mut s, value.len() as u32);
                be(&mut s, off);
                s.extend_from_slice(value);
                pad(&mut s);
            }
            Item::End => be(&mut s, 2),
        }
    }
    be(&mut s, 9);
    s
}

fn blob_from_parts(st: &[u8], strings: &[u8]) -> Vec<u8> {
    let struct_off = 40 + 16;
    let strings_off = struct_off + st.len();
    let total = strings_off + strings.len();
    let mut b = Vec::new();
    for v in [
        0xd00d_feed,
        total as u32,
        struct_off as u32,
        strings_off as u32,
        40,
        17,
        16,
        0,
        strings.len() as u32,
        st.len() as u32,
    ] {
        be(&mut b, v);
    }
    b.extend_from_slice(&[0u8; 16]);
    b.extend_from_slice(st);
    b.extend_from_slice(strings);
    b
}

fn blob(items: &[Item]) -> Vec<u8> {
    let mut strings = Vec::new();
    let st = struct_block(items, &mut strings);
    blob_from_parts(&st, &strings)
}

fn sample_items() -> Vec<Item<'static>> {
    vec![
        Item::Begin(""),
        Item::Prop("compatible", b"acme,board\0acme,soc\0"),
        Item::Prop("#address-cells", &[0, 0, 0, 1]),
        Item::Begin("cpus"),
        Item::Begin("cpu@0"),
        Item::Prop("reg", &[0, 0, 0, 0]),
        Item::End,
        Item::End,
        Item::Begin("memory@80000000"),
        Item::Prop("odd", &[1, 2, 3]),
        Item::Prop("ranges", &[]),
        Item::End,
        Item::End,
    ]
}

fn name(t: &Tree, i: usize) -> String {
    String::from_utf8(t.nodes[i].name.clone()).unwrap()
}

fn begin(n: &str) -> Token {
    Token::BeginNode { name: n.as_bytes().to_vec() }
}

fn prop(n: &str, v: &[u8]) -> Token {
    Token::Property { name: n.as_bytes().to_vec(), value: v.to_vec() }
}

fn sample_tree() -> Tree {
    build_from_tokens(vec![
        begin(""),
        begin("cpus"),
        begin("cpu@0"),
        Token::EndNode,
        begin("cpu@1"),
        Token::EndNode,
        Token::EndNode,
        begin("memory@0"),
        begin("bank"),
        Token::EndNode,
        Token::EndNode,
        Token::EndNode,
        Token::End,
    ])
    .unwrap()
}

// ---- classifier ----

#[test]
fn classify_empty_is_empty_text() {
    assert_eq!(classify(&vec![]), DisplayValue::Text(String::new()));
}

#[test]
fn classify_nul_terminated_string() {
    assert_eq!(classify(&vec![0x41, 0x00]), DisplayValue::Text("A".to_string()));
}

#[test]
fn classify_single_word() {
    assert_eq!(classify(&vec![0, 0, 0, 1]), DisplayValue::IntList(vec![1]));
}

#[test]
fn classify_odd_length_is_raw() {
    assert_eq!(classify(&vec![1, 2, 3]), DisplayValue::Raw(vec![1, 2, 3]));
}

#[test]
fn classify_words_are_big_endian() {
    assert_eq!(
        classify(&vec![0x12, 0x34, 0x56, 0x78, 0xff, 0xff, 0xff, 0xfe]),
        DisplayValue::IntList(vec![0x1234_5678, 0xffff_fffe])
    );
}

#[test]
fn classify_string_list_joined() {
    assert_eq!(
        classify(&b"arm,cortex-a53\0arm,armv8\0".to_vec()),
        DisplayValue::Text("arm,cortex-a53, arm,armv8".to_string())
    );
}

#[test]
fn classify_zero_word_is_int() {
    assert_eq!(classify(&vec![0, 0, 0, 0]), DisplayValue::IntList(vec![0]));
}

#[test]
fn classify_control_bytes_not_text() {
    assert_eq!(classify(&vec![1, 0, 0, 0]), DisplayValue::IntList(vec![0x0100_0000]));
    assert_eq!(classify(&vec![b'a', 7, 0]), DisplayValue::Raw(vec![b'a', 7, 0]));
}

#[test]
fn classify_empty_string_payload() {
    assert_eq!(classify(&vec![0]), DisplayValue::Text(String::new()));
}

#[test]
fn classify_double_nul_not_text() {
    assert_eq!(classify(&vec![b'a', 0, 0]), DisplayValue::Raw(vec![b'a', 0, 0]));
}

#[test]
fn classify_utf8_text() {
    assert_eq!(classify(&"héllo\0".as_bytes().to_vec()), DisplayValue::Text("héllo".to_string()));
}

#[test]
fn classify_invalid_utf8_falls_through() {
    assert_eq!(classify(&vec![0xff, 0]), DisplayValue::Raw(vec![0xff, 0]));
    assert_eq!(classify(&vec![b'a', 0xc3, 0x28, 0]), DisplayValue::IntList(vec![0x61c3_2800]));
}

#[test]
fn classify_is_repeatable() {
    for v in [vec![], vec![0x41, 0], vec![0, 0, 0, 1], vec![1, 2, 3], b"x\0y\0".to_vec()] {
        assert_eq!(classify(&v), classify(&v));
    }
}

// ---- building from tokens ----

#[test]
fn build_keeps_document_order() {
    let t = sample_tree();
    assert_eq!(t.node_count(), 6);
    let names: Vec<String> = (0..6).map(|i| name(&t, i)).collect();
    assert_eq!(names, vec!["", "cpus", "cpu@0", "cpu@1", "memory@0", "bank"]);
    assert_eq!(t.nodes[0].parent, None);
    assert_eq!(t.nodes[2].parent, Some(1));
    assert_eq!(t.nodes[5].parent, Some(4));
    assert_eq!(t.children(0), vec![1, 4]);
    assert_eq!(t.children(1), vec![2, 3]);
    assert_eq!(t.children(3), Vec::<usize>::new());
}

#[test]
fn build_attaches_properties_to_open_node() {
    let t = build_from_tokens(vec![
        begin(""),
        prop("model", b"board\0"),
        begin("chosen"),
        prop("bootargs", b"quiet\0"),
        Token::EndNode,
        prop("#size-cells", &[0, 0, 0, 2]),
        Token::EndNode,
        Token::End,
    ])
    .unwrap();
    assert_eq!(t.properties.len(), 3);
    assert_eq!(t.properties_of(0), vec![0, 2]);
    assert_eq!(t.properties_of(1), vec![1]);
    assert_eq!(t.properties[1].name, b"bootargs".to_vec());
    assert_eq!(t.properties[1].display, DisplayValue::Text("quiet".to_string()));
    assert_eq!(t.properties[2].display, DisplayValue::IntList(vec![2]));
}

#[test]
fn build_extra_end_node_is_unbalanced() {
    let r = build_from_tokens(vec![begin(""), Token::EndNode, Token::EndNode, Token::End]);
    assert_eq!(r.unwrap_err(), DtbError::UnbalancedTree);
}

#[test]
fn build_unclosed_node() {
    let r = build_from_tokens(vec![begin(""), begin("a"), Token::EndNode, Token::End]);
    assert_eq!(r.unwrap_err(), DtbError::UnclosedNodes);
}

#[test]
fn build_without_end_token_is_cut_short() {
    let r = build_from_tokens(vec![begin(""), Token::EndNode]);
    assert_eq!(r.unwrap_err(), DtbError::UnexpectedEof);
}

#[test]
fn build_property_outside_root_is_unbalanced() {
    let r = build_from_tokens(vec![prop("x", &[]), begin(""), Token::EndNode, Token::End]);
    assert_eq!(r.unwrap_err(), DtbError::UnbalancedTree);
}

#[test]
fn build_second_root_is_unbalanced() {
    let r = build_from_tokens(vec![begin(""), Token::EndNode, begin("x"), Token::EndNode, Token::End]);
    assert_eq!(r.unwrap_err(), DtbError::UnbalancedTree);
}

#[test]
fn build_empty_stream_is_unbalanced() {
    assert_eq!(build_from_tokens(vec![Token::End]).unwrap_err(), DtbError::UnbalancedTree);
}

#[test]
fn build_ignores_tokens_after_end() {
    let t = build_from_tokens(vec![begin("r"), Token::EndNode, Token::End, Token::EndNode]).unwrap();
    assert_eq!(t.node_count(), 1);
}

#[test]
fn builder_feed_reports_completion() {
    let mut b = TreeBuilder::new();
    assert_eq!(b.feed(begin("")), Ok(false));
    assert_eq!(b.feed(Token::EndNode), Ok(false));
    assert_eq!(b.feed(Token::End), Ok(true));
    assert_eq!(b.finish().node_count(), 1);
}

// ---- decoding blobs ----

#[test]
fn load_sample_blob() {
    let b = blob(&sample_items());
    let t = load(&b).unwrap();
    let names: Vec<String> = (0..t.node_count()).map(|i| name(&t, i)).collect();
    assert_eq!(names, vec!["", "cpus", "cpu@0", "memory@80000000"]);
    assert_eq!(t.children(0), vec![1, 3]);
    assert_eq!(t.properties.len(), 5);
    assert_eq!(t.properties[0].name, b"compatible".to_vec());
    assert_eq!(t.properties[0].display, DisplayValue::Text("acme,board, acme,soc".to_string()));
    assert_eq!(t.properties[1].display, DisplayValue::IntList(vec![1]));
    assert_eq!(t.properties[2].node, 2);
    assert_eq!(t.properties[2].display, DisplayValue::IntList(vec![0]));
    assert_eq!(t.properties[3].display, DisplayValue::Raw(vec![1, 2, 3]));
    assert_eq!(t.properties[4].display, DisplayValue::Text(String::new()));
}

#[test]
fn load_matches_token_walk() {
    let b = blob(&sample_items());
    let mut d = Decoder::read(&b).unwrap();
    let mut toks = Vec::new();
    loop {
        let t = d.next_item().unwrap();
        let end = t == Token::End;
        toks.push(t);
        if end {
            break;
        }
    }
    let begins = toks.iter().filter(|t| matches!(t, Token::BeginNode { .. })).count();
    let ends = toks.iter().filter(|t| matches!(t, Token::EndNode)).count();
    let props = toks.iter().filter(|t| matches!(t, Token::Property { .. })).count();
    assert_eq!(begins, ends);
    let t = load(&b).unwrap();
    assert_eq!(t.node_count(), begins);
    assert_eq!(t.properties.len(), props);
    assert_eq!(build_from_tokens(toks).unwrap(), t);
}

#[test]
fn load_name_padding_every_length() {
    let items = vec![
        Item::Begin(""),
        Item::Begin("a"),
        Item::Prop("p1", &[9]),
        Item::End,
        Item::Begin("ab"),
        Item::Prop("p2", &[9, 8]),
        Item::End,
        Item::Begin("abc"),
        Item::Prop("p3", &[9, 8, 7]),
        Item::End,
        Item::Begin("abcd"),
        Item::Prop("p4", &[9, 8, 7, 6, 5]),
        Item::End,
        Item::End,
    ];
    let t = load(&blob(&items)).unwrap();
    let names: Vec<String> = (0..t.node_count()).map(|i| name(&t, i)).collect();
    assert_eq!(names, vec!["", "a", "ab", "abc", "abcd"]);
    assert_eq!(t.properties[3].value, vec![9, 8, 7, 6, 5]);
    assert_eq!(t.properties[2].display, DisplayValue::Raw(vec![9, 8, 7]));
    assert_eq!(t.properties[3].node, 4);
}

#[test]
fn load_truncated_property_is_eof() {
    let mut strings = Vec::new();
    let mut st = struct_block(&[Item::Begin(""), Item::Prop("reg", &[0, 0, 0, 1]), Item::End], &mut strings);
    // declare a value longer than what is left of the structure block
    let len_at = 8 + 4;
    st[len_at..len_at + 4].copy_from_slice(&1000u32.to_be_bytes());
    let r = load(&blob_from_parts(&st, &strings));
    assert_eq!(r.unwrap_err(), DtbError::UnexpectedEof);
}

#[test]
fn load_bad_magic_is_malformed_header() {
    let mut b = blob(&sample_items());
    b[0] = 0;
    assert_eq!(load(&b).unwrap_err(), DtbError::MalformedHeader);
}

#[test]
fn load_short_buffer_is_malformed_header() {
    assert_eq!(load(&[0xd0, 0x0d, 0xfe, 0xed]).unwrap_err(), DtbError::MalformedHeader);
    assert_eq!(load(&[]).unwrap_err(), DtbError::MalformedHeader);
}

#[test]
fn load_wrong_total_size_is_malformed_header() {
    let mut b = blob(&sample_items());
    b.push(0);
    assert_eq!(load(&b).unwrap_err(), DtbError::MalformedHeader);
}

#[test]
fn load_unknown_tag_is_malformed_token() {
    let mut strings = Vec::new();
    let mut st = struct_block(&[Item::Begin(""), Item::End], &mut strings);
    st[8..12].copy_from_slice(&7u32.to_be_bytes());
    let r = load(&blob_from_parts(&st, &strings));
    assert_eq!(r.unwrap_err(), DtbError::MalformedToken);
}

#[test]
fn load_bad_name_offset_is_unknown_name() {
    let mut strings = Vec::new();
    let mut st = struct_block(&[Item::Begin(""), Item::Prop("reg", &[0, 0, 0, 1]), Item::End], &mut strings);
    st[16..20].copy_from_slice(&500u32.to_be_bytes());
    let r = load(&blob_from_parts(&st, &strings));
    assert_eq!(r.unwrap_err(), DtbError::UnknownPropertyName);
}

#[test]
fn load_unbalanced_blob() {
    let r = load(&blob(&[Item::Begin(""), Item::End, Item::End]));
    assert_eq!(r.unwrap_err(), DtbError::UnbalancedTree);
    let r = load(&blob(&[Item::Begin(""), Item::Begin("x"), Item::End]));
    assert_eq!(r.unwrap_err(), DtbError::UnclosedNodes);
}

#[test]
fn decoder_build_on_sample() {
    let b = blob(&sample_items());
    let mut d = Decoder::read(&b).unwrap();
    let t = build(&mut d).unwrap();
    assert_eq!(t.node_count(), 4);
}

#[test]
fn decoder_error_mapping() {
    assert_eq!(token_for_error(dtb::Error::NoMoreStructItems), Ok(Token::End));
    assert_eq!(token_for_error(dtb::Error::UnexpectedEndOfStruct), Err(DtbError::UnexpectedEof));
    assert_eq!(token_for_error(dtb::Error::UnexpectedEndOfBlob), Err(DtbError::UnknownPropertyName));
    assert_eq!(token_for_error(dtb::Error::BadPropertyName), Err(DtbError::UnknownPropertyName));
    assert_eq!(token_for_error(dtb::Error::BadStructToken), Err(DtbError::MalformedToken));
    assert_eq!(token_for_error(dtb::Error::BadNodeName), Err(DtbError::MalformedToken));
}

// ---- filtering ----

fn q(s: &str) -> Vec<u8> {
    s.as_bytes().to_vec()
}

#[test]
fn filter_empty_query_shows_all() {
    let t = sample_tree();
    assert_eq!(compute_visibility(&t, &q("")), vec![true; 6]);
}

#[test]
fn filter_match_shows_ancestors_only() {
    let t = sample_tree();
    // root, cpus, cpu@0, cpu@1, memory@0, bank
    assert_eq!(compute_visibility(&t, &q("cpu@0")), vec![true, true, true, false, false, false]);
    assert_eq!(compute_visibility(&t, &q("cpu")), vec![true, true, true, true, false, false]);
}

#[test]
fn filter_descendant_match_keeps_parent() {
    let t = sample_tree();
    assert_eq!(compute_visibility(&t, &q("bank")), vec![true, false, false, false, true, true]);
}

#[test]
fn filter_is_case_sensitive() {
    let t = sample_tree();
    assert_eq!(compute_visibility(&t, &q("CPU")), vec![false; 6]);
}

#[test]
fn filter_narrower_query_shows_more() {
    let t = sample_tree();
    let wide = compute_visibility(&t, &q("cpu@1"));
    let narrow = compute_visibility(&t, &q("pu"));
    for i in 0..6 {
        assert!(!wide[i] || narrow[i]);
    }
}

#[test]
fn substring_search() {
    assert!(contains_bytes(&q("memory@0"), &q("ory@")));
    assert!(contains_bytes(&q("abc"), &q("")));
    assert!(contains_bytes(&q("abc"), &q("abc")));
    assert!(!contains_bytes(&q("abc"), &q("abcd")));
    assert!(!contains_bytes(&q("aab"), &q("ba")));
    assert!(name_matches_query(&q("x"), &q("")));
    assert!(!name_matches_query(&q("x"), &q("y")));
}

#[test]
fn build_second_root_left_open_is_unclosed() {
    let r = build_from_tokens(vec![begin(""), Token::EndNode, begin("x"), Token::End]);
    assert_eq!(r.unwrap_err(), DtbError::UnclosedNodes);
}

#[test]
fn build_stray_property_left_open_is_unclosed() {
    let r = build_from_tokens(vec![begin(""), Token::EndNode, prop("p", &[]), begin("x"), Token::End]);
    assert_eq!(r.unwrap_err(), DtbError::UnclosedNodes);
}

#[test]
fn load_second_root_left_open_is_unclosed() {
    let r = load(&blob(&[Item::Begin(""), Item::End, Item::Begin("x")]));
    assert_eq!(r.unwrap_err(), DtbError::UnclosedNodes);
}

#[test]
fn load_offset_past_buffer_is_malformed_header() {
    let mut b = blob(&sample_items());
    let past = (b.len() as u32 + 8).to_be_bytes();
    b[8..12].copy_from_slice(&past);
    assert_eq!(load(&b).unwrap_err(), DtbError::MalformedHeader);
    let mut b = blob(&sample_items());
    b[12..16].copy_from_slice(&past);
    assert_eq!(load(&b).unwrap_err(), DtbError::MalformedHeader);
}

#[test]
fn load_unsupported_version_is_malformed_header() {
    let mut b = blob(&sample_items());
    b[24..28].copy_from_slice(&15u32.to_be_bytes());
    assert_eq!(load(&b).unwrap_err(), DtbError::MalformedHeader);
}

#[test]
fn decoder_steps_through_walk() {
    let b = blob(&[Item::Begin("r"), Item::Prop("p", &[1]), Item::End]);
    let mut d = Decoder::read(&b).unwrap();
    assert_eq!(d.next_item(), Ok(begin("r")));
    assert_eq!(d.next_item(), Ok(prop("p", &[1])));
    assert_eq!(d.next_item(), Ok(Token::EndNode));
    assert_eq!(d.next_item(), Ok(Token::End));
    assert_eq!(d.next_item(), Ok(Token::End));
}
