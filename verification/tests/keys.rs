use base95::digits::Digits;
use base95::{Base95, ParseError};

#[test]
fn it_works() {
    assert_eq!(Base95::from_str(""), Err(ParseError::EmptyNotAllowed));
    assert_eq!(Base95::from_str("한글"), Err(ParseError::InvalidChar));
    assert_eq!(Base95::from_str("O").unwrap(), Base95::mid());
}

#[test]
fn boundary_keys() {
    let n1 = Base95::mid();
    assert_eq!(n1.to_string(), "O");
    assert_eq!(n1.raw_digits(), vec![47]);

    let n2 = Base95::avg_with_zero(&n1);
    assert_eq!(n2.to_string(), "7");
    assert_eq!(n2.raw_digits(), vec![23]);

    let n3 = Base95::avg_with_one(&n1);
    assert_eq!(n3.to_string(), "g");
    assert_eq!(n3.raw_digits(), vec![71]);

    let n4 = Base95::avg(&n1, &n2);
    assert_eq!(n4.to_string(), "C");
    assert_eq!(n4.raw_digits(), vec![35]);

    let n5 = Base95::from_str("j>Z= 4").unwrap();
    assert_eq!(n5.raw_digits(), vec![74, 30, 58, 29, 0, 20]);
}

#[test]
fn parse_rejects_what_is_not_printable_ascii() {
    assert_eq!(Base95::from_str(""), Err(ParseError::EmptyNotAllowed));
    assert_eq!(Base95::from_str("\n"), Err(ParseError::InvalidChar));
    assert_eq!(Base95::from_str("a\tb"), Err(ParseError::InvalidChar));
    assert_eq!(Base95::from_str("abc\u{7f}"), Err(ParseError::InvalidChar));
    assert_eq!(Base95::from_str("\u{1f}"), Err(ParseError::InvalidChar));
    assert_eq!(Base95::from_str("\0"), Err(ParseError::InvalidChar));
    assert_eq!(Base95::from_str("caf\u{e9}"), Err(ParseError::InvalidChar));
    assert_eq!(Base95::from_str("\u{80}"), Err(ParseError::InvalidChar));
    assert_eq!(Base95::from_str("O\u{1F600}"), Err(ParseError::InvalidChar));
}

#[test]
fn parse_accepts_every_printable_character() {
    let mut all = String::new();
    for code in 32u8..=126 {
        all.push(code as char);
    }
    let key = Base95::from_str(&all).unwrap();
    assert_eq!(key.to_string(), all);
    let digits: Vec<u8> = (0u8..95).collect();
    assert_eq!(key.raw_digits(), digits);
    assert_eq!(Base95::from_str(" ").unwrap().raw_digits(), vec![0]);
    assert_eq!(Base95::from_str("~").unwrap().raw_digits(), vec![94]);
}

#[test]
fn text_survives_parsing_and_decoding() {
    for text in ["O", " ", "~", "j>Z= 4", "O ", "  x", "a b c", "~~~~"] {
        let key = Base95::from_str(text).unwrap();
        assert_eq!(key.to_string(), text);
        assert_eq!(Base95::encode(&key.decode()).to_string(), text);
        assert_eq!(Base95::encode(&key.decode()), key);
        assert_eq!(key.clone(), key);
    }
}

#[test]
fn encode_shifts_each_digit_by_a_space() {
    assert_eq!(Base95::encode(&Digits(vec![0])).to_string(), " ");
    assert_eq!(Base95::encode(&Digits(vec![94])).to_string(), "~");
    assert_eq!(Base95::encode(&Digits(vec![47, 0, 94])).to_string(), "O ~");
    assert_eq!(
        Base95::encode(&Digits(vec![74, 30, 58, 29, 0, 20])).to_string(),
        "j>Z= 4"
    );
    let digits: Vec<u8> = (0u8..95).collect();
    let text = Base95::encode(&Digits(digits.clone())).to_string();
    let codes: Vec<u8> = text.bytes().collect();
    let shifted: Vec<u8> = digits.iter().map(|d| d + 32).collect();
    assert_eq!(codes, shifted);
}

#[test]
fn decode_gives_the_digits_of_the_text() {
    assert_eq!(Base95::from_str("O").unwrap().decode(), Digits(vec![47]));
    assert_eq!(
        Base95::from_str("O ~").unwrap().decode(),
        Digits(vec![47, 0, 94])
    );
}

#[test]
fn avg_of_keys_is_the_key_of_the_average() {
    let a = Base95::from_str("O\\").unwrap();
    let b = Base95::from_str("Pf").unwrap();
    assert_eq!(a.raw_digits(), vec![47, 60]);
    assert_eq!(b.raw_digits(), vec![48, 70]);
    assert_eq!(Base95::avg(&a, &b).to_string(), "P");
    assert_eq!(Base95::avg(&b, &a).to_string(), "P");

    let c = Base95::from_str("!~").unwrap();
    let d = Base95::from_str(" ~").unwrap();
    assert_eq!(Base95::avg(&c, &d).to_string(), "!");

    let g = Base95::from_str("*R").unwrap();
    let h = Base95::from_str("-\\").unwrap();
    assert_eq!(g.raw_digits(), vec![10, 50]);
    assert_eq!(h.raw_digits(), vec![13, 60]);
    assert_eq!(Base95::avg(&g, &h).to_string(), "+");

    let e = Base95::from_str("O").unwrap();
    let f = Base95::from_str("P").unwrap();
    assert_eq!(Base95::avg(&e, &f).to_string(), "OO");
    assert_eq!(Base95::avg(&e, &e).to_string(), "O");
}

#[test]
fn avg_with_the_bounds_at_the_edges() {
    let low = Base95::from_str("!").unwrap();
    assert_eq!(Base95::avg_with_zero(&low).to_string(), " O");
    let high = Base95::from_str("~").unwrap();
    assert_eq!(Base95::avg_with_one(&high).to_string(), "~O");
    let zero = Base95::from_str(" ").unwrap();
    assert_eq!(Base95::avg_with_zero(&zero).to_string(), " ");
    assert_eq!(Base95::avg_with_one(&zero).to_string(), "O");
}

#[test]
fn halving_towards_zero_always_descends() {
    let mut chain: Vec<Base95> = vec![Base95::mid()];
    for _ in 0..40 {
        let next = Base95::avg_with_zero(chain.last().unwrap());
        chain.push(next);
    }
    let expected = [
        "O", "7", "+", "%", "\"", "!", " O", " 7", " +", " %", " \"", " !", "  O",
    ];
    for (key, text) in chain.iter().zip(expected.iter()) {
        assert_eq!(key.to_string(), *text);
    }
    for i in 0..chain.len() {
        for j in (i + 1)..chain.len() {
            assert!(chain[j] < chain[i]);
            assert!(chain[j].decode().less_than(&chain[i].decode()));
            assert_ne!(chain[j], chain[i]);
        }
    }
}

#[test]
fn halving_towards_one_always_ascends() {
    let mut chain: Vec<Base95> = vec![Base95::mid()];
    for _ in 0..40 {
        let next = Base95::avg_with_one(chain.last().unwrap());
        chain.push(next);
    }
    let expected = ["O", "g", "s", "y", "|", "}", "~", "~O", "~g", "~s", "~y", "~|", "~}"];
    for (key, text) in chain.iter().zip(expected.iter()) {
        assert_eq!(key.to_string(), *text);
    }
    for i in 0..chain.len() {
        for j in (i + 1)..chain.len() {
            assert!(chain[i] < chain[j]);
            assert!(chain[i].decode().less_than(&chain[j].decode()));
        }
    }
}

#[test]
fn keys_sort_as_their_fractions() {
    let texts = [
        "!", " O", "7", "C", "O", "OO", "O!", "P", "g", "~", "~O", "j>Z= 4", "  x", "!~",
    ];
    for x in texts {
        for y in texts {
            let a = Base95::from_str(x).unwrap();
            let b = Base95::from_str(y).unwrap();
            assert_eq!(a < b, a.decode().less_than(&b.decode()), "{:?} {:?}", x, y);
            assert_eq!(x < y, a < b);
            assert_eq!(a == b, x == y);
        }
    }
}

#[test]
fn a_space_at_the_end_sorts_later_and_counts_nothing() {
    let a = Base95::from_str("O").unwrap();
    let b = Base95::from_str("O ").unwrap();
    assert!(a < b);
    assert!(!a.decode().less_than(&b.decode()));
    assert!(!b.decode().less_than(&a.decode()));
}

#[test]
fn inserting_between_neighbours_keeps_the_list_sorted() {
    let mut list: Vec<Base95> = vec![Base95::mid()];
    let mut seed: u32 = 12345;
    for _ in 0..300 {
        seed = seed.wrapping_mul(1103515245).wrapping_add(12345);
        let pos = ((seed >> 16) as usize) % (list.len() + 1);
        let key = if pos == 0 {
            Base95::avg_with_zero(&list[pos])
        } else if pos == list.len() {
            Base95::avg_with_one(&list[pos - 1])
        } else {
            Base95::avg(&list[pos - 1], &list[pos])
        };
        list.insert(pos, key);
    }
    for pair in list.windows(2) {
        assert!(pair[0] < pair[1], "{:?} {:?}", pair[0], pair[1]);
    }
    for key in &list {
        let text = key.to_string();
        assert!(!text.is_empty());
        assert!(text.bytes().all(|b| (32..=126).contains(&b)));
        assert!(!text.ends_with(' '));
    }
}

#[test]
fn a_key_parses_through_the_trait_and_turns_into_a_string() {
    let key: Base95 = "j>Z= 4".parse().unwrap();
    assert_eq!(key, Base95::from_str("j>Z= 4").unwrap());
    let failed: Result<Base95, ParseError> = "".parse();
    assert_eq!(failed, Err(ParseError::EmptyNotAllowed));
    let failed: Result<Base95, ParseError> = "\u{7f}".parse();
    assert_eq!(failed, Err(ParseError::InvalidChar));
    let text: String = key.into();
    assert_eq!(text, "j>Z= 4");
    assert_eq!(String::from(Base95::mid()), "O");
}

#[test]
fn sorts_before_is_the_order_of_strings() {
    let texts = ["!", " O", "7", "O", "OO", "O ", "O!", "P", "~", "~O", "  x", " ", "  "];
    for x in texts {
        for y in texts {
            let a = Base95::from_str(x).unwrap();
            let b = Base95::from_str(y).unwrap();
            assert_eq!(a.sorts_before(&b), x < y, "{:?} {:?}", x, y);
            assert_eq!(a.sorts_before(&b), a < b);
        }
    }
}
