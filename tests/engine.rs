use ime_engine::dict::Dictionary;
use ime_engine::engine::{expand_choice_and_write, longest_match, min, search, ExpandChoiceResult};
use ime_engine::ipc::IpcMem;
use ime_engine::lex::{Token, TokenQueue, TOKEN_QUEUE_SIZE};
use ime_engine::text::{Utf8Str, BUF_SIZE};
use ime_engine::writer::{BufWriter, Writer};

const ENTRIES: [(&str, &str); 11] = [
    ("bai", "白\t百\t拜"),
    ("chang", "长\t常\t场"),
    ("de", "的\t得\t地"),
    ("he", "喝\t和\t合"),
    ("hen", "很"),
    ("ni", "你"),
    ("wo", "我"),
    ("xi", "西"),
    ("xiang", "想\t向\t像\t香"),
    ("zhang", "长\t张\t章"),
    ("zhi", "只\t之"),
];

fn dictionary() -> Dictionary {
    let keys: Vec<String> = ENTRIES.iter().map(|(k, _)| k.to_string()).collect();
    let values: Vec<String> = ENTRIES.iter().map(|(_, v)| v.to_string()).collect();
    Dictionary::new(keys, values).expect("sorted keys")
}

// Runs the query through the shared buffers and through a direct sink, checks
// that both replies agree, and returns the reply.
fn query(qry: &str) -> String {
    let d = dictionary();
    let mut ipc = IpcMem::new();
    let n = ipc.put_query(qry.as_bytes());
    let written = ipc.query_shared_mem_ipc(&d, n);
    let ipc_reply = ipc.to_s().to_string();
    assert_eq!(written, ipc_reply.len());
    let mut sink = BufWriter::new();
    let reply = ime_engine::query(&d, qry, &mut sink).to_string();
    assert_eq!(reply, ipc_reply);
    ipc_reply
}

#[test]
fn min_query() {
    assert_eq!("", query(&""));
}

#[test]
fn max_query() {
    let buf_max = ['A' as u8; BUF_SIZE];
    let qry_max = core::str::from_utf8(&buf_max).unwrap();
    // This should be passed through unchanged as ASCII
    assert_eq!(qry_max, query(qry_max));
}

#[test]
fn max_query_plus_1_truncate() {
    let buf_max = ['A' as u8; BUF_SIZE];
    let qry_max = core::str::from_utf8(&buf_max).unwrap();
    let buf_1_too_big = ['A' as u8; BUF_SIZE + 1];
    let qry_1_too_big = core::str::from_utf8(&buf_1_too_big).unwrap();
    // This should truncate the query
    assert_eq!(qry_max, query(qry_1_too_big));
}

#[test]
fn choice_xiang1() {
    assert_eq!("想", query(&"xiang1"));
}

#[test]
fn zhang3chang2() {
    assert!(query(&"zhang").contains("长"));
    assert!(query(&"chang").contains("长"));
}

#[test]
fn query_all_pinyin_search_keys_verify_ciyu() {
    for (pinyin, value) in ENTRIES.iter() {
        let ciyu = value.split('\t').next().unwrap();
        assert!(query(pinyin).contains(ciyu));
    }
}

#[test]
fn choosing_ciyu_with_numbers_and_spaces() {
    assert!(query(&"xiang").contains("(1想"));
    assert!(query(&"xiang").contains("2向"));
    assert_eq!(query(&"xiang "), "想");
    assert!(query(&" xiang").starts_with(" "));
    assert!(query(&" xiang").contains("(1想"));
    assert_eq!(query(&"xiang1"), "想");
    assert_eq!(query(&"xiang2"), "向");
    assert!(query(&"xianghe").contains("(1想"));
    assert!(query(&"xianghe").contains("2向"));
    assert!(query(&"xianghe").contains("(1喝"));
    assert!(query(&"xianghe").contains("2和"));
    assert!(query(&"xiang he").starts_with("想"));
    assert!(query(&"xiang he").contains("(1喝"));
    assert!(query(&"xiang1he").starts_with("想"));
    assert!(query(&"xiang1he").contains("(1喝"));
    assert!(query(&"xianghe1").starts_with("想"));
    assert!(query(&"xianghe1").contains("(1喝"));
    assert!(query(&"xianghe ").starts_with("想"));
    assert!(query(&"xianghe ").contains("(1喝"));
    assert_eq!(query(&"xianghe 1"), "想喝");
    assert_eq!(query(&"xianghe11"), "想喝");
    assert_eq!(query(&"xiang he1"), "想喝");
    assert_eq!(query(&"xiang he "), "想喝");
    assert_eq!(query(&"xianghe 2"), "想和");
}

#[test]
fn query_chars_not_matched_should_pass_through() {
    assert_eq!(query(&"🐇✨"), "🐇✨");
    assert_eq!(query(&"baiSEde🐇✨11"), "白SE的🐇✨");
    assert_eq!(query(&"RABBIT SPARKLES 11"), "RABBIT SPARKLES 11");
    assert_eq!(query(&"XIANGHE"), "XIANGHE");
}

#[test]
fn full_prompt_without_disambiguator() {
    assert_eq!(query("xiang"), "(1想 2向 3像 4香) ");
    assert_eq!(query(" xiang"), " (1想 2向 3像 4香) ");
}

#[test]
fn single_candidate_keys_render_their_value() {
    assert_eq!(query("hen"), "很");
    assert_eq!(query("ni"), "你");
    assert_eq!(query("wo"), "我");
    assert_eq!(query("xi"), "西");
    assert_eq!(query("wohen"), "我很");
}

#[test]
fn explicit_pick_is_not_echoed() {
    assert_eq!(query("xiang3"), "像");
    assert_eq!(query("xiang4"), "香");
    assert_eq!(query("he3"), "合");
    assert_eq!(query("zhi2"), "之");
}

#[test]
fn out_of_range_pick_falls_back_to_prompt() {
    assert_eq!(query("xiang9"), "(1想 2向 3像 4香) 9");
    assert_eq!(query("zhi3"), "(1只 2之) 3");
    // The digit stays available to a later open choice within range.
    assert_eq!(query("zhixiang3"), "(1只 2之) 像");
    // Lookahead never goes backward.
    assert_eq!(query("zhi3xiang"), "(1只 2之) 3(1想 2向 3像 4香) ");
}

#[test]
fn greedy_longest_match_wins() {
    // "xi" and "xiang" are both keys; the longer one is taken.
    assert_eq!(query("xiang2"), "向");
    assert_eq!(query("xixiang1"), "西想");
    let d = dictionary();
    let v = Utf8Str::new("xiangx");
    let xiang = d.find("xiang").unwrap();
    assert_eq!(longest_match(&d, &v, 0, 6), Some((xiang, 5)));
    let xi = d.find("xi").unwrap();
    assert_eq!(longest_match(&d, &v, 0, 3), Some((xi, 2)));
    assert_eq!(longest_match(&d, &v, 5, 6), None);
    assert_eq!(longest_match(&d, &v, 3, 3), None);
}

#[test]
fn sinks_agree_on_replies() {
    let d = dictionary();
    for q in ["woxiangheguozhi", "woxiang he2zhi1", "baiSEde🐇✨11", ""] {
        let mut ipc = IpcMem::new();
        let n = ipc.put_query(q.as_bytes());
        let written = ipc.query_shared_mem_ipc(&d, n);
        let mut sink = BufWriter::new();
        let direct = ime_engine::query(&d, q, &mut sink).to_string();
        assert_eq!(ipc.to_s(), direct);
        assert_eq!(written, direct.len());
    }
}

#[test]
fn rendering_appends_to_a_used_sink() {
    let d = dictionary();
    let mut sink = BufWriter::new();
    let _ = ime_engine::query(&d, "wo", &mut sink);
    assert_eq!(ime_engine::query(&d, "hen", &mut sink), "我很");
    sink.rewind();
    assert_eq!(sink.to_s(), "");
}

#[test]
fn char_slice_by_character_position() {
    let v = Utf8Str::new("白🐇a✨");
    assert_eq!(v.char_count(), 4);
    assert_eq!(v.char_slice(0, 1), Some("白"));
    assert_eq!(v.char_slice(1, 3), Some("🐇a"));
    assert_eq!(v.char_slice(0, 4), Some("白🐇a✨"));
    assert_eq!(v.char_slice(3, 4), Some("✨"));
    assert_eq!(v.char_slice(2, 2), None);
    assert_eq!(v.char_slice(3, 2), None);
    assert_eq!(v.char_slice(3, 5), None);
    assert_eq!(v.char_slice(0, BUF_SIZE), None);
}

#[test]
fn view_keeps_at_most_buffer_size_characters() {
    let long: String = std::iter::repeat('✨').take(BUF_SIZE + 20).collect();
    let v = Utf8Str::new(&long);
    assert_eq!(v.char_count(), BUF_SIZE);
    let expected: String = std::iter::repeat('✨').take(BUF_SIZE).collect();
    assert_eq!(v.char_slice(0, BUF_SIZE), Some(expected.as_str()));
    assert_eq!(v.char_slice(0, BUF_SIZE + 1), None);
    let all = Utf8Str::with_limit(&long, usize::MAX);
    assert_eq!(all.char_count(), BUF_SIZE + 20);
    let empty = Utf8Str::new("");
    assert_eq!(empty.char_count(), 0);
    assert_eq!(empty.char_slice(0, 1), None);
}

#[test]
fn truncation_happens_before_segmentation() {
    // 149 unmatched characters, then a key cut after its first letter.
    let mut q: String = std::iter::repeat('A').take(BUF_SIZE - 1).collect();
    q.push_str("hen");
    let mut expected: String = std::iter::repeat('A').take(BUF_SIZE - 1).collect();
    expected.push('h');
    let d = dictionary();
    let mut sink = BufWriter::new();
    assert_eq!(ime_engine::query(&d, &q, &mut sink), expected);
}

#[test]
fn dictionary_rejects_unsorted_or_mismatched_tables() {
    let s = |v: &[&str]| v.iter().map(|x| x.to_string()).collect::<Vec<String>>();
    assert!(Dictionary::new(s(&["b", "a"]), s(&["1", "2"])).is_none());
    assert!(Dictionary::new(s(&["a", "a"]), s(&["1", "2"])).is_none());
    assert!(Dictionary::new(s(&["a", "b"]), s(&["1"])).is_none());
    assert!(Dictionary::new(s(&[]), s(&[])).is_some());
    // Byte order: "Z" < "a" < "ab" < "b" < "é".
    let d = Dictionary::new(s(&["Z", "a", "ab", "b", "é"]), s(&["1", "2", "3", "4", "5"])).unwrap();
    assert_eq!(d.len(), 5);
    assert_eq!(d.max_key_length(), 2);
    assert_eq!(d.find("ab"), Some(2));
    assert_eq!(d.find("é"), Some(4));
    assert_eq!(d.find("ba"), None);
    assert_eq!(d.find(""), None);
}

#[test]
fn dictionary_splits_candidates_at_tabs() {
    let d = dictionary();
    let i = d.find("xiang").unwrap();
    assert_eq!(d.candidate_count(i), 4);
    assert_eq!(d.candidate(i, 0), "想");
    assert_eq!(d.candidate(i, 3), "香");
    assert_eq!(d.value(i), "想\t向\t像\t香");
    let h = d.find("hen").unwrap();
    assert_eq!(d.candidate_count(h), 1);
    assert_eq!(d.candidate(h, 0), "很");
    let s = |v: &[&str]| v.iter().map(|x| x.to_string()).collect::<Vec<String>>();
    let e = Dictionary::new(s(&["k"]), s(&["a\t\tb\t"])).unwrap();
    assert_eq!(e.candidate_count(0), 4);
    assert_eq!(e.candidate(0, 1), "");
    assert_eq!(e.candidate(0, 2), "b");
    assert_eq!(e.candidate(0, 3), "");
}

#[test]
fn token_queue_drops_tokens_when_full() {
    let mut q = TokenQueue::new();
    for _ in 0..TOKEN_QUEUE_SIZE {
        assert!(q.push(Token::Other('x')));
    }
    assert!(!q.push(Token::Other('y')));
    assert_eq!(q.count(), TOKEN_QUEUE_SIZE);
}

#[test]
fn search_produces_tokens_in_order() {
    let d = dictionary();
    let v = Utf8Str::new("xiang 9a");
    let mut q = TokenQueue::new();
    search(&d, &v, &mut q, 0, v.char_count());
    assert_eq!(q.count(), 4);
    let xiang = d.find("xiang").unwrap();
    assert!(matches!(q.get(0), Token::CiOpenChoice(i) if i == xiang));
    assert!(matches!(q.get(1), Token::MaybeChoice(' ')));
    assert!(matches!(q.get(2), Token::MaybeChoice('9')));
    assert!(matches!(q.get(3), Token::Other('a')));
    let mut sink = BufWriter::new();
    q.render_and_write(&d, &mut sink);
    assert_eq!(sink.to_s(), "想9a");
    assert!(matches!(q.get(1), Token::Skip));
}

#[test]
fn open_choice_on_single_candidate_writes_value() {
    let d = dictionary();
    let hen = d.find("hen").unwrap();
    let mut q = TokenQueue::new();
    q.push(Token::CiOpenChoice(hen));
    q.push(Token::MaybeChoice('1'));
    let mut sink = BufWriter::new();
    q.render_and_write(&d, &mut sink);
    assert_eq!(sink.to_s(), "很1");
}

#[test]
fn expand_choice_results() {
    let d = dictionary();
    let he = d.find("he").unwrap();
    let mut sink = BufWriter::new();
    assert!(matches!(expand_choice_and_write(&d, he, Some('2'), &mut sink), ExpandChoiceResult::WasChoice));
    assert_eq!(sink.to_s(), "和");
    sink.rewind();
    assert!(matches!(expand_choice_and_write(&d, he, Some(' '), &mut sink), ExpandChoiceResult::WasChoice));
    assert_eq!(sink.to_s(), "喝");
    sink.rewind();
    assert!(matches!(expand_choice_and_write(&d, he, Some('4'), &mut sink), ExpandChoiceResult::WasNotChoice));
    assert_eq!(sink.to_s(), "(1喝 2和 3合) ");
    sink.rewind();
    assert!(matches!(expand_choice_and_write(&d, he, None, &mut sink), ExpandChoiceResult::WasNotChoice));
    assert_eq!(sink.to_s(), "(1喝 2和 3合) ");
}

#[test]
fn prompt_labels_stop_at_nine() {
    let s = |v: &[&str]| v.iter().map(|x| x.to_string()).collect::<Vec<String>>();
    let d = Dictionary::new(s(&["k"]), s(&["a\tb\tc\td\te\tf\tg\th\ti\tj"])).unwrap();
    let mut sink = BufWriter::new();
    assert_eq!(ime_engine::query(&d, "k", &mut sink), "(1a 2b 3c 4d 5e 6f 7g 8h 9i 9j) ");
    let mut sink = BufWriter::new();
    assert_eq!(ime_engine::query(&d, "k9", &mut sink), "i");
}

#[test]
fn buf_writer_drops_bytes_beyond_capacity() {
    let mut sink = BufWriter::new();
    let long: String = std::iter::repeat('A').take(BUF_SIZE + 10).collect();
    sink.write(&long);
    assert_eq!(sink.to_s().len(), BUF_SIZE);
    sink.write("B");
    assert_eq!(sink.to_s(), &long[..BUF_SIZE]);
    // A character cut by the capacity leaves bytes that are not UTF-8.
    let mut sink = BufWriter::new();
    let almost: String = std::iter::repeat('A').take(BUF_SIZE - 1).collect();
    sink.write(&almost);
    sink.write("想");
    assert_eq!(sink.to_s(), "");
    sink.trace(901);
    sink.rewind();
    sink.write("想");
    assert_eq!(sink.to_s(), "想");
}

#[test]
fn ipc_region_reads_requests() {
    let mut ipc = IpcMem::new();
    let n = ipc.put_query("bai".as_bytes());
    assert_eq!(n, 3);
    assert_eq!(ipc.get_query(n), "bai");
    assert_eq!(ipc.get_query(2), "ba");
    // Bytes that are not UTF-8 read as the empty request.
    let n = ipc.put_query(&[0x62, 0xff, 0x61]);
    assert_eq!(ipc.get_query(n), "");
    let d = dictionary();
    assert_eq!(ipc.query_shared_mem_ipc(&d, n), 0);
    assert_eq!(ipc.position(), 0);
    // A request is cut at the region's size.
    let big = vec![b'A'; BUF_SIZE + 5];
    assert_eq!(ipc.put_query(&big), BUF_SIZE);
    assert_eq!(ipc.query_shared_mem_ipc(&d, BUF_SIZE), BUF_SIZE);
    ipc.rewind();
    assert_eq!(ipc.position(), 0);
}

#[test]
fn min_picks_smaller() {
    assert_eq!(min(3, 5), 3);
    assert_eq!(min(5, 3), 3);
    assert_eq!(min(4, 4), 4);
}
