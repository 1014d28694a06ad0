use rlfm::bwt::make_bwt;

fn cyclic_count(s: &str, p: &str) -> u64 {
    let s: Vec<char> = s.chars().collect();
    let p: Vec<char> = p.chars().collect();
    let n = s.len();
    let mut count = 0;
    for i in 0..n {
        if (0..p.len()).all(|k| p[k] == s[(i + k) % n]) {
            count += 1;
        }
    }
    count
}

fn sorted_chars(s: &str) -> Vec<char> {
    let mut v: Vec<char> = s.chars().collect();
    v.sort();
    v
}

#[test]
fn test_bwt_banana() {
    let ban_bwt = make_bwt("banana".to_string());

    assert_eq!("nnbaaa", ban_bwt.transform());

    assert_eq!(3, ban_bwt.last_char_pos());

    assert_eq!(Some(0 as u64), ban_bwt.c_table('a'));
    assert_eq!(Some(3 as u64), ban_bwt.c_table('b'));
    assert_eq!(Some(4 as u64), ban_bwt.c_table('n'));

    assert_eq!(Some(3 as u64), ban_bwt.amount_of('a'));
    assert_eq!(Some(1 as u64), ban_bwt.amount_of('b'));
    assert_eq!(Some(2 as u64), ban_bwt.amount_of('n'));
}

#[test]
fn test_bwt_missisippi() {
    let mis_bwt = make_bwt("mississippi".to_string());
    assert_eq!("pssmipissii", mis_bwt.transform());

    assert_eq!(4, mis_bwt.last_char_pos());

    assert_eq!(Some(0 as u64), mis_bwt.c_table('i'));
    assert_eq!(Some(5 as u64), mis_bwt.c_table('p'));

    assert_eq!(Some(4 as u64), mis_bwt.amount_of('s'));
    assert_eq!(Some(1 as u64), mis_bwt.amount_of('m'));
}

#[test]
fn absent_chars_have_no_table_entry() {
    let b = make_bwt("banana".to_string());
    assert_eq!(None, b.c_table('z'));
    assert_eq!(None, b.amount_of('z'));
}

#[test]
fn transform_permutes_the_text() {
    for s in ["banana", "mississippi", "abracadabra", "aaaa", "x", "héllo wörld"] {
        let t = make_bwt(s.to_string()).transform();
        assert_eq!(s.chars().count(), t.chars().count());
        assert_eq!(sorted_chars(s), sorted_chars(&t));
    }
}

#[test]
fn empty_text_gives_empty_index() {
    let b = make_bwt(String::new());
    assert_eq!("", b.transform());
    assert_eq!(0, b.last_char_pos());
    assert_eq!(None, b.c_table('a'));
    assert_eq!(1, b.find_num_occurences(String::new()));
    assert_eq!(0, b.find_num_occurences("a".to_string()));
}

#[test]
fn periodic_text_is_deterministic() {
    let b = make_bwt("aaaa".to_string());
    assert_eq!("aaaa", b.transform());
    assert_eq!(0, b.last_char_pos());
    assert_eq!(4, b.find_num_occurences("aaaa".to_string()));
    assert_eq!(make_bwt("abab".to_string()).transform(), make_bwt("abab".to_string()).transform());
    assert_eq!("bbaa", make_bwt("abab".to_string()).transform());
}

#[test]
fn whole_text_found_once_when_rotations_differ() {
    for s in ["banana", "mississippi", "abracadabra", "x"] {
        assert_eq!(1, make_bwt(s.to_string()).find_num_occurences(s.to_string()));
    }
    assert_eq!(2, make_bwt("abab".to_string()).find_num_occurences("abab".to_string()));
}

#[test]
fn substrings_counted_as_cyclic_scan() {
    for s in ["banana", "mississippi", "abracadabra", "héllo wörld"] {
        let chars: Vec<char> = s.chars().collect();
        let b = make_bwt(s.to_string());
        for i in 0..chars.len() {
            for j in i + 1..=chars.len() {
                let p: String = chars[i..j].iter().collect();
                assert_eq!(cyclic_count(s, &p), b.find_num_occurences(p.clone()), "{} in {}", p, s);
            }
        }
    }
}

#[test]
fn multi_character_patterns() {
    let b = make_bwt("banana".to_string());
    assert_eq!(2, b.find_num_occurences("ana".to_string()));
    assert_eq!(2, b.find_num_occurences("an".to_string()));
    assert_eq!(3, b.find_num_occurences("a".to_string()));
    assert_eq!(0, b.find_num_occurences("nn".to_string()));
    let m = make_bwt("mississippi".to_string());
    assert_eq!(2, m.find_num_occurences("issi".to_string()));
    assert_eq!(2, m.find_num_occurences("ssi".to_string()));
    assert_eq!(1, m.find_num_occurences("ppi".to_string()));
}

#[test]
fn empty_pattern_counts_every_gap() {
    assert_eq!(7, make_bwt("banana".to_string()).find_num_occurences(String::new()));
    assert_eq!(12, make_bwt("mississippi".to_string()).find_num_occurences(String::new()));
}

#[test]
fn absent_character_gives_zero() {
    let b = make_bwt("banana".to_string());
    assert_eq!(0, b.find_num_occurences("z".to_string()));
    assert_eq!(0, b.find_num_occurences("bza".to_string()));
    assert_eq!(0, b.find_num_occurences("zan".to_string()));
    assert_eq!(0, b.find_num_occurences("anz".to_string()));
}

#[test]
fn non_ascii_units_stay_aligned() {
    let b = make_bwt("héllo wörld".to_string());
    assert_eq!(1, b.find_num_occurences("é".to_string()));
    assert_eq!(1, b.find_num_occurences("éll".to_string()));
    assert_eq!(1, b.find_num_occurences("wö".to_string()));
    assert_eq!(3, b.find_num_occurences("l".to_string()));
}

#[test]
fn rotations_sorted_with_ties_by_offset() {
    let banana: Vec<char> = "banana".chars().collect();
    assert_eq!(vec![5, 3, 1, 0, 4, 2], rlfm::rotation::sorted_rotations(&banana));
    let abab: Vec<char> = "abab".chars().collect();
    assert_eq!(vec![0, 2, 1, 3], rlfm::rotation::sorted_rotations(&abab));
    assert_eq!(0, make_bwt("abab".to_string()).last_char_pos());
    assert_eq!(2, make_bwt("baba".to_string()).last_char_pos());
}
