use jemalloc_pprof::double::Double;
use jemalloc_pprof::jeheap::{parse_jeheap, HeapDump, HeapSample, ParseError};
use jemalloc_pprof::mappings::{BuildId, Mapping};
use jemalloc_pprof::text::{AddressError, FloatError};

fn sample(addrs: &[usize], n_objs: &str, bytes_in_sampled_objs: &str) -> HeapSample {
    HeapSample {
        addrs: addrs.to_vec(),
        n_objs: n_objs.to_string(),
        bytes_in_sampled_objs: bytes_in_sampled_objs.to_string(),
    }
}

const RATE: ParseError = ParseError::InvalidSamplingRate(FloatError::Invalid);

const DIGIT: ParseError = ParseError::InvalidAddress(AddressError::InvalidDigit);

#[test]
fn a_dump_is_read() {
    let contents = b"heap_v2/524288\n\
        \x20 t*: 28106: 56637512 [0: 0]\n\
        \x20 t0: 28106: 56637512 [0: 0]\n\
        @ 0x10 0x20 0x30\n\
        \x20 t*: 40274: 2822125696 [0: 0]\n\
        \x20 t1: 40274: 2822125696 [0: 0]\n\
        @ 0xdeadbeef\n\
        \x20 t*: 1: 100 [0: 0]\n\
        \n\
        MAPPED_LIBRARIES:\n\
        00400000-00401000 r-xp 00000000 08:01 1 /bin/x\n";
    let dump = parse_jeheap(contents, true).unwrap();
    assert_eq!(
        dump,
        HeapDump {
            sampling_rate: "524288".to_string(),
            samples: vec![
                sample(&[0x30, 0x20, 0x10], "40274", "2822125696"),
                sample(&[0xdeadbeef], "1", "100"),
            ],
        }
    );
}

#[test]
fn an_empty_dump_is_refused() {
    assert_eq!(parse_jeheap(b"", true), Err(ParseError::Empty));
    assert_eq!(ParseError::Empty.message(), "Heap dump file was empty");
}

#[test]
fn an_unfinished_dump_is_refused() {
    assert_eq!(parse_jeheap(b"", false), Err(ParseError::Read));
    assert_eq!(parse_jeheap(b"heap_v2/1", false), Err(ParseError::Read));
    assert_eq!(parse_jeheap(b"heap_v2/1\n", false), Err(ParseError::Read));
    assert_eq!(parse_jeheap(b"heap_v2/1\n@ 1\n t*: 1: 1\n", false), Err(ParseError::Read));
    // An error before the end counts first.
    assert_eq!(parse_jeheap(b"heap_v2/x\n", false), Err(RATE));
    assert_eq!(parse_jeheap(b"heap_v2/1\n@ z\n", false), Err(DIGIT));
    // What follows the last line end does not.
    assert_eq!(parse_jeheap(b"heap_v2/1\n@ z", false), Err(ParseError::Read));
}

#[test]
fn the_last_line_needs_no_end() {
    let dump = parse_jeheap(b"heap_v2/1\n@ 1\n t*: 2: 3", true).unwrap();
    assert_eq!(dump.samples, vec![sample(&[1], "2", "3")]);
}

#[test]
fn carriage_returns_end_lines_too() {
    let dump = parse_jeheap(b"heap_v2/1\r\n@ 1\r\n t*: 2: 3\r\n", true).unwrap();
    assert_eq!(dump.sampling_rate, "1");
    assert_eq!(dump.samples, vec![sample(&[1], "2", "3")]);
    // One that no line feed follows is part of the line.
    assert_eq!(parse_jeheap(b"heap_v2/1\r", true), Err(RATE));
    // Only one of them is dropped.
    assert_eq!(parse_jeheap(b"heap_v2/1\r\r\n", true), Err(RATE));
}

#[test]
fn lines_must_be_utf8() {
    assert_eq!(parse_jeheap(b"heap_v2/\xff\n", true), Err(ParseError::InvalidUtf8));
    assert_eq!(parse_jeheap(b"heap_v2/1\n\xc3\n", true), Err(ParseError::InvalidUtf8));
    assert!(parse_jeheap("heap_v2/1\n\u{e9}\u{1f600}\n".as_bytes(), true).is_ok());
}

#[test]
fn the_sampling_rate_must_be_a_number() {
    assert_eq!(parse_jeheap(b"\n", true), Err(ParseError::InvalidSamplingRate(FloatError::Empty)));
    assert_eq!(parse_jeheap(b"heap_v2/ 1\n", true), Err(RATE));
    assert_eq!(parse_jeheap(b"heap_v1/1\n", true), Err(RATE));
    assert_eq!(parse_jeheap(b"42\n", true).unwrap().sampling_rate, "42");
    assert_eq!(parse_jeheap(b"heap_v2/heap_v2/42\n", true).unwrap().sampling_rate, "42");
}

#[test]
fn addresses_must_be_hexadecimal() {
    assert_eq!(parse_jeheap(b"heap_v2/1\n@ 0xg\n", true), Err(DIGIT));
    assert_eq!(
        parse_jeheap(b"heap_v2/1\n@ 1 0x 0xg\n", true),
        Err(ParseError::InvalidAddress(AddressError::Empty))
    );
    assert_eq!(
        parse_jeheap(b"heap_v2/1\n@ 0x10000000000000000\n", true),
        Err(ParseError::InvalidAddress(AddressError::TooLarge))
    );
    let dump = parse_jeheap(b"heap_v2/1\n@ 0x0xAb +C 0xffffffffffffffff\nt*: 1 2\n", true).unwrap();
    assert_eq!(dump.samples, vec![sample(&[usize::MAX, 0xc, 0xab], "1", "2")]);
}

#[test]
fn counts_must_be_numbers() {
    assert_eq!(
        parse_jeheap(b"heap_v2/1\n@ 1\nt*: x: 1\n", true),
        Err(ParseError::InvalidObjectCount(FloatError::Invalid))
    );
    assert_eq!(
        parse_jeheap(b"heap_v2/1\n@ 1\nt*: 1: 1:\n", true),
        Err(ParseError::InvalidByteCount(FloatError::Invalid))
    );
    let dump = parse_jeheap(b"heap_v2/1\n@ 1\nt*: 1:: 2e3\n", true).unwrap();
    assert_eq!(dump.samples, vec![sample(&[1], "1", "2e3")]);
}

#[test]
fn stacks_need_weights() {
    assert_eq!(parse_jeheap(b"heap_v2/1\n@ 1\n", true), Err(ParseError::StackWithoutWeight));
    assert_eq!(
        parse_jeheap(b"heap_v2/1\n@ 1\n@ 2\nt*: 1: 1\n", true),
        Err(ParseError::StackWithoutWeight)
    );
    assert_eq!(ParseError::StackWithoutWeight.message(), "Stack without corresponding weight!");
}

#[test]
fn other_lines_are_skipped() {
    let dump = parse_jeheap(
        b"heap_v2/1\nt*: x: y\n@ 1\nt*: 1:\n t1: 9: 9\n@2\n\n t*: 1: 2 3\nt*: z: z\n",
        true,
    )
    .unwrap();
    assert_eq!(dump.samples, vec![sample(&[1], "1", "2")]);
}

#[test]
fn the_first_error_counts() {
    assert_eq!(
        parse_jeheap(b"heap_v2/1\n@ z\n\xff\n@ 1\n@ 2\n", true),
        Err(DIGIT)
    );
    assert_eq!(
        parse_jeheap(b"heap_v2/1\n\xff\n@ z\n", true),
        Err(ParseError::InvalidUtf8)
    );
}

#[test]
fn every_error_says_something() {
    assert_eq!(ParseError::Read.message(), "the heap dump could not be read to its end");
    assert_eq!(ParseError::InvalidUtf8.message(), "stream did not contain valid UTF-8");
    for (error, message) in [
        (FloatError::Empty, "cannot parse float from empty string"),
        (FloatError::Invalid, "invalid float literal"),
    ] {
        assert_eq!(error.message(), message);
        assert_eq!(ParseError::InvalidSamplingRate(error).message(), message);
        assert_eq!(ParseError::InvalidObjectCount(error).message(), message);
        assert_eq!(ParseError::InvalidByteCount(error).message(), message);
    }
    for (error, message) in [
        (AddressError::Empty, "cannot parse integer from empty string"),
        (AddressError::InvalidDigit, "invalid digit found in string"),
        (AddressError::TooLarge, "number too large to fit in target type"),
    ] {
        assert_eq!(error.message(), message);
        assert_eq!(ParseError::InvalidAddress(error).message(), message);
    }
}

#[test]
fn colons_alone_are_no_count() {
    assert_eq!(
        parse_jeheap(b"1\n@ 1\nt*: :: 1\n", true),
        Err(ParseError::InvalidObjectCount(FloatError::Empty))
    );
}

/// All texts of at most `length` of the given characters.
fn all_texts(alphabet: &[char], length: usize) -> Vec<String> {
    let mut texts = vec![String::new()];
    let mut last = vec![String::new()];
    for _ in 0..length {
        let mut next = Vec::new();
        for text in &last {
            for c in alphabet {
                next.push(format!("{text}{c}"));
            }
        }
        texts.extend(next.iter().cloned());
        last = next;
    }
    texts
}

/// Compares how a sampling rate is read with how the standard library reads it.
fn check_rate(text: &str) {
    let result = parse_jeheap(format!("heap_v2/{text}\n").as_bytes(), true);
    match text.parse::<f64>() {
        Ok(_) => assert_eq!(result.unwrap().sampling_rate, text),
        Err(error) => assert_eq!(result.unwrap_err().message(), error.to_string(), "{text:?}"),
    }
}

/// Compares how an address is read with how the standard library reads it.
fn check_address(word: &str) {
    let dump = parse_jeheap(format!("1\n@ {word}\nt*: 1 1\n").as_bytes(), true);
    match usize::from_str_radix(word.trim_start_matches("0x"), 16) {
        Ok(address) => assert_eq!(dump.unwrap().samples[0].addrs, vec![address], "{word:?}"),
        Err(error) => assert_eq!(dump.unwrap_err().message(), error.to_string(), "{word:?}"),
    }
}

#[test]
fn sampling_rates_are_what_std_takes_for_numbers() {
    for text in all_texts(&['+', '-', '.', 'e', 'E', '0', '7', ' ', 'i', '\u{661}'], 5) {
        check_rate(&text);
    }
    for word in ["inf", "infinity", "nan", "in", "infi", "infinit", "infinityy", "na", "nann"] {
        for sign in ["", "+", "-", "+-"] {
            for text in [
                format!("{sign}{word}"),
                format!("{sign}{}", word.to_uppercase()),
                format!("{sign}{}{}", &word[..1].to_uppercase(), &word[1..]),
                format!("{sign}{word}0"),
            ] {
                check_rate(&text);
            }
        }
    }
}

#[test]
fn addresses_are_what_std_takes_for_hexadecimal() {
    for text in all_texts(&['+', '-', '0', 'x', 'a', 'G', '9', 'F'], 4) {
        if !text.is_empty() {
            check_address(&text);
        }
    }
}

#[test]
fn large_addresses_are_what_std_takes_for_such() {
    let fronts = [
        "", "+", "0", "0x", "fffffffffffffff", "ffffffffffffffff", "1000000000000000",
        "10000000000000000", "0000000000000000ffffffffffffffff", "12345678123456781", "\u{e9}",
    ];
    for front in fronts {
        for back in all_texts(&['0', 'f', 'g', '+', '\u{661}'], 3) {
            let word = format!("{front}{back}");
            if !word.is_empty() {
                check_address(&word);
            }
        }
    }
}

#[test]
fn words_are_split_as_std_does() {
    let spaces = [
        ' ', '\t', '\u{b}', '\u{c}', '\r', '\u{85}', '\u{a0}', '\u{1680}', '\u{2003}', '\u{2028}',
        '\u{3000}', '\u{feff}', '\u{200b}', '1',
    ];
    for text in all_texts(&spaces, 3) {
        for line in [format!("{text}@ 1"), format!("@{text}1"), format!("@ 1{text}")] {
            let dump = parse_jeheap(format!("1\n{line}\nt*: 1 1\n").as_bytes(), true);
            let trimmed = line.trim_end_matches('\r').trim();
            let words: Vec<&str> = trimmed.split_ascii_whitespace().collect();
            if words.first() == Some(&"@") {
                let addrs = words[1..]
                    .iter()
                    .map(|word| usize::from_str_radix(word, 16))
                    .collect::<Result<Vec<usize>, _>>();
                match addrs {
                    Ok(mut addrs) => {
                        addrs.reverse();
                        assert_eq!(dump.unwrap().samples, vec![sample(&addrs, "1", "1")]);
                    }
                    Err(_) => {
                        let error = dump.unwrap_err();
                        assert!(matches!(error, ParseError::InvalidAddress(_)), "{line:?}");
                    }
                }
            } else {
                assert_eq!(dump.unwrap().samples, vec![], "{line:?}");
            }
        }
    }
}

#[test]
fn a_dump_becomes_a_profile() {
    let dump = parse_jeheap(b"heap_v2/1\n@ 1 2\nt*: 1: 1\n@ 3\nt*: 2: 2\n", true).unwrap();
    let weights = [Double { bits: 1.5f64.to_bits() }, Double { bits: 2.5f64.to_bits() }];
    let mapping = Mapping {
        memory_start: 1,
        memory_end: 2,
        memory_offset: 3,
        file_offset: 4,
        pathname: b"/bin/x".to_vec(),
        build_id: Some(BuildId(vec![5])),
    };
    let profile = dump.into_profile(&weights, Some(&[mapping.clone()]));
    assert_eq!(profile.annotations.len(), 0);
    assert_eq!(profile.mappings, vec![mapping]);
    let mut iter = profile.iter();
    let (stack, annotation) = iter.next().unwrap();
    assert_eq!(stack.addrs, vec![2, 1]);
    assert_eq!(f64::from_bits(stack.weight.bits), 1.5);
    assert_eq!(annotation, None);
    let (stack, annotation) = iter.next().unwrap();
    assert_eq!(stack.addrs, vec![3]);
    assert_eq!(f64::from_bits(stack.weight.bits), 2.5);
    assert_eq!(annotation, None);
    assert!(iter.next().is_none());
    assert!(iter.next().is_none());
}

#[test]
fn a_profile_may_lack_mappings() {
    let dump = parse_jeheap(b"heap_v2/1\n", true).unwrap();
    let profile = dump.into_profile(&[], None);
    assert_eq!(profile.mappings.len(), 0);
    assert_eq!(profile.stacks.len(), 0);
}
