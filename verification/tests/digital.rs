use linecode::digital::encoding::{Encode, Manchester, ManchesterDifferential, AMI, NRZI, NRZL};
use linecode::digital::scramble::{b8zs, hdb3, Scramble, Scrambling};
use linecode::digital::{encode, parse_bits, scramble_bits, DigitalSettings, InvalidSymbol};
use linecode::encoding::{
    ami_encoder, manchester_differential_encoder, manchester_encoder, nrzi_encoder, nrzl_encoder,
    Encodings,
};
use linecode::scramble::{b8zs_encoder, hdb3_encoder};
use linecode::utils::{SignalType, _validate_input};

fn bits(text: &str) -> Vec<bool> {
    text.chars().map(|c| c == '1').collect()
}

fn settings(text: &str, encoding: Encodings, scrambling: Scrambling) -> DigitalSettings {
    DigitalSettings { binary_stream: String::from(text), encoding, scrambling }
}

#[test]
fn nrzl_of_101() {
    assert_eq!(encode("101", Encodings::NRZL, Scrambling::Off), Ok(vec![1, -1, 1]));
    assert_eq!(nrzl_encoder(&bits("101")), vec![1, -1, 1]);
}

#[test]
fn manchester_of_101() {
    assert_eq!(
        encode("101", Encodings::Manchester, Scrambling::Off),
        Ok(vec![-1, 1, 1, -1, -1, 1])
    );
    assert_eq!(manchester_encoder(&bits("101")), vec![-1, 1, 1, -1, -1, 1]);
}

#[test]
fn ami_of_101() {
    assert_eq!(encode("101", Encodings::AMI, Scrambling::Off), Ok(vec![1, 0, -1]));
    assert_eq!(ami_encoder(&bits("101")), vec![1, 0, -1]);
}

#[test]
fn ami_alternates_across_spaces() {
    assert_eq!(ami_encoder(&bits("1100101")), vec![1, -1, 0, 0, 1, 0, -1]);
}

#[test]
fn nrzi_flips_on_marks_only() {
    assert_eq!(nrzi_encoder(&bits("0110")), vec![1, -1, 1, 1]);
    assert_eq!(encode("1", Encodings::NRZI, Scrambling::Off), Ok(vec![-1]));
}

#[test]
fn nrzi_keeps_length_and_starts_high_on_space() {
    for text in ["0", "01", "0000", "0101101", "00110011001"] {
        let out = encode(text, Encodings::NRZI, Scrambling::Off).unwrap();
        assert_eq!(out.len(), text.len());
        assert_eq!(out[0], 1);
    }
    for text in ["1", "10", "111", "1010110"] {
        let out = encode(text, Encodings::NRZI, Scrambling::Off).unwrap();
        assert_eq!(out.len(), text.len());
        assert_eq!(out[0], -1);
    }
}

#[test]
fn manchester_codes_double_the_length() {
    for text in ["", "0", "1", "0110", "1111111", "0101010101"] {
        let m = encode(text, Encodings::Manchester, Scrambling::Off).unwrap();
        let d = encode(text, Encodings::ManchesterDifferential, Scrambling::Off).unwrap();
        assert_eq!(m.len(), 2 * text.len());
        assert_eq!(d.len(), 2 * text.len());
    }
}

#[test]
fn manchester_differential_senses() {
    assert_eq!(manchester_differential_encoder(&bits("0")), vec![0, 1]);
    assert_eq!(manchester_differential_encoder(&bits("1")), vec![1, 0]);
    assert_eq!(manchester_differential_encoder(&bits("011")), vec![0, 1, 1, 0, 0, 1]);
    assert_eq!(manchester_differential_encoder(&bits("10")), vec![1, 0, 1, 0]);
    assert_eq!(
        encode("0110", Encodings::ManchesterDifferential, Scrambling::Off),
        Ok(vec![0, 1, 1, 0, 0, 1, 0, 1])
    );
}

#[test]
fn manchester_differential_changes_sense_at_marks_only() {
    let text = "0110100111";
    let out = manchester_differential_encoder(&bits(text));
    let marks = bits(text);
    for i in 0..text.len() {
        assert_ne!(out[2 * i], out[2 * i + 1]);
        if i + 1 < text.len() {
            assert_eq!(marks[i + 1], out[2 * i] != out[2 * i + 2]);
        }
    }
}

#[test]
fn b8zs_of_sixteen_spaces() {
    let out = encode("0000000000000000", Encodings::AMI, Scrambling::B8ZS).unwrap();
    let block = vec![0, 0, 0, -1, 1, 0, 1, -1];
    assert_eq!(out.len(), 16);
    assert_eq!(out[..8].to_vec(), block);
    assert_eq!(out[8..].to_vec(), block);
    assert_eq!(out[..8].iter().map(|x| *x as i32).sum::<i32>(), 0);
    assert_eq!(out[8..].iter().map(|x| *x as i32).sum::<i32>(), 0);
}

#[test]
fn b8zs_blocks_of_longer_runs() {
    let out = b8zs("00000000000000000000000").unwrap();
    let mut expected = vec![0, 0, 0, -1, 1, 0, 1, -1, 0, 0, 0, -1, 1, 0, 1, -1];
    expected.extend_from_slice(&[0, 0, 0, 0, 0, 0, 0]);
    assert_eq!(out, expected);
}

#[test]
fn b8zs_after_a_mark() {
    assert_eq!(b8zs("100000000"), Ok(vec![1, 0, 0, 0, 1, -1, 0, -1, 1]));
    assert_eq!(b8zs("1000000001"), Ok(vec![1, 0, 0, 0, 1, -1, 0, -1, 1, -1]));
    assert_eq!(b8zs_encoder(&bits("1100000000")), vec![1, -1, 0, 0, 0, -1, 1, 0, 1, -1]);
}

#[test]
fn b8zs_leaves_short_runs() {
    assert_eq!(b8zs("10000000"), Ok(vec![1, 0, 0, 0, 0, 0, 0, 0]));
    assert_eq!(b8zs("1000000010000000"), Ok(vec![1, 0, 0, 0, 0, 0, 0, 0, -1, 0, 0, 0, 0, 0, 0, 0]));
    assert_eq!(b8zs("101"), Ok(vec![1, 0, -1]));
}

#[test]
fn hdb3_of_spaces() {
    assert_eq!(hdb3("0000"), Ok(vec![1, 0, 0, 1]));
    assert_eq!(hdb3("00000000"), Ok(vec![1, 0, 0, 1, -1, 0, 0, -1]));
    assert_eq!(hdb3("000"), Ok(vec![0, 0, 0]));
}

#[test]
fn hdb3_even_case() {
    assert_eq!(hdb3("10000"), Ok(vec![1, 0, 0, 0, -1]));
    assert_eq!(hdb3("100001"), Ok(vec![1, 0, 0, 0, -1, -1]));
    assert_eq!(hdb3_encoder(&bits("1000000001")), vec![1, 0, 0, 0, -1, -1, 0, 0, -1, 1]);
}

#[test]
fn hdb3_odd_case_after_two_marks() {
    assert_eq!(hdb3("110000"), Ok(vec![1, -1, 1, 0, 0, 1]));
}

#[test]
fn hdb3_even_blocks_need_a_mark_between() {
    // An even-case block ends in a lone pulse after three zero levels; between
    // two of them the input holds a mark.
    let text = "1000010000000010000";
    let out = hdb3(text).unwrap();
    assert_eq!(
        out,
        vec![1, 0, 0, 0, -1, -1, 0, 0, 0, 1, 1, 0, 0, 1, -1, 0, 0, 0, 1]
    );
}

#[test]
fn scramble_dispatches() {
    assert_eq!(AMI.scramble("101", Scrambling::Off), Ok(vec![1, 0, -1]));
    assert_eq!(AMI.scramble("0000", Scrambling::HDB3), Ok(vec![1, 0, 0, 1]));
    assert_eq!(
        AMI.scramble("00000000", Scrambling::B8ZS),
        Ok(vec![0, 0, 0, -1, 1, 0, 1, -1])
    );
    assert_eq!(scramble_bits(&bits("0000"), Scrambling::B8ZS), vec![0, 0, 0, 0]);
    assert_eq!(AMI.scramble("0x", Scrambling::HDB3), Err(InvalidSymbol { position: 1 }));
}

#[test]
fn line_codes_through_the_trait() {
    let off = Scrambling::Off;
    assert_eq!(NRZL.encode(&settings("101", Encodings::NRZL, off)), Ok(vec![1, -1, 1]));
    assert_eq!(NRZI.encode(&settings("101", Encodings::NRZI, off)), Ok(vec![-1, -1, 1]));
    assert_eq!(
        Manchester.encode(&settings("10", Encodings::Manchester, off)),
        Ok(vec![-1, 1, 1, -1])
    );
    assert_eq!(
        ManchesterDifferential.encode(&settings("10", Encodings::ManchesterDifferential, off)),
        Ok(vec![1, 0, 1, 0])
    );
    assert_eq!(AMI.encode(&settings("111", Encodings::AMI, off)), Ok(vec![1, -1, 1]));
    assert_eq!(
        AMI.encode(&settings("10000", Encodings::AMI, Scrambling::HDB3)),
        Ok(vec![1, 0, 0, 0, -1])
    );
    assert_eq!(
        NRZL.encode(&settings("12", Encodings::NRZL, off)),
        Err(InvalidSymbol { position: 1 })
    );
}

#[test]
fn scrambling_bears_on_ami_only() {
    let text = "100000000";
    for scheme in [Encodings::NRZL, Encodings::NRZI, Encodings::Manchester] {
        assert_eq!(encode(text, scheme, Scrambling::B8ZS), encode(text, scheme, Scrambling::Off));
    }
    assert_ne!(
        encode(text, Encodings::AMI, Scrambling::B8ZS),
        encode(text, Encodings::AMI, Scrambling::Off)
    );
}

#[test]
fn empty_bit_string_gives_empty_signal() {
    for scheme in [
        Encodings::NRZL,
        Encodings::NRZI,
        Encodings::Manchester,
        Encodings::ManchesterDifferential,
        Encodings::AMI,
    ] {
        for scrambling in [Scrambling::Off, Scrambling::B8ZS, Scrambling::HDB3] {
            assert_eq!(encode("", scheme, scrambling), Ok(vec![]));
        }
    }
}

#[test]
fn invalid_symbol_is_reported_with_its_place() {
    assert_eq!(encode("10a1", Encodings::NRZL, Scrambling::Off), Err(InvalidSymbol { position: 2 }));
    assert_eq!(encode("2", Encodings::AMI, Scrambling::B8ZS), Err(InvalidSymbol { position: 0 }));
    assert_eq!(b8zs("0000 0000"), Err(InvalidSymbol { position: 4 }));
    assert_eq!(hdb3("1\u{e9}0z"), Err(InvalidSymbol { position: 1 }));
    assert_eq!(parse_bits("01 "), Err(InvalidSymbol { position: 2 }));
}

#[test]
fn parse_bits_reads_marks_and_spaces() {
    assert_eq!(parse_bits("0110"), Ok(vec![false, true, true, false]));
    assert_eq!(parse_bits(""), Ok(vec![]));
}

#[test]
fn validate_input_accepts_bit_strings_only() {
    assert!(_validate_input(""));
    assert!(_validate_input("0101"));
    assert!(!_validate_input("0121"));
    assert!(!_validate_input("abc"));
}

#[test]
fn signal_types_differ() {
    assert_ne!(SignalType::Analog, SignalType::Digital);
}

fn bit_strings(max_len: usize) -> Vec<String> {
    let mut all = vec![String::new()];
    let mut last = vec![String::new()];
    for _ in 0..max_len {
        let mut next = Vec::new();
        for text in &last {
            next.push(format!("{}0", text));
            next.push(format!("{}1", text));
        }
        all.extend(next.iter().cloned());
        last = next;
    }
    all
}

/// The indices at which a run of spaces completes a block of `block`.
fn block_ends(text: &str, block: usize) -> Vec<usize> {
    let mut ends = Vec::new();
    let mut run = 0;
    for (i, c) in text.chars().enumerate() {
        if c == '0' {
            run += 1;
            if run % block == 0 {
                ends.push(i);
            }
        } else {
            run = 0;
        }
    }
    ends
}

#[test]
fn b8zs_is_ami_without_runs_of_eight() {
    for text in bit_strings(12) {
        if !text.contains("00000000") {
            assert_eq!(b8zs(&text), encode(&text, Encodings::AMI, Scrambling::Off));
        }
    }
}

#[test]
fn b8zs_blocks_stand_where_runs_fill_eight() {
    for text in bit_strings(17) {
        if text.len() < 16 && !text.is_empty() {
            continue;
        }
        let out = b8zs(&text).unwrap();
        let ami = ami_encoder(&bits(&text));
        let ends = block_ends(&text, 8);
        for i in 0..text.len() {
            match ends.iter().find(|e| **e >= i && **e < i + 8) {
                Some(end) if text.as_bytes()[i] == b'0' => {
                    let t = ami[..i].iter().rev().find(|x| **x != 0).copied().unwrap_or(-1);
                    let block = [0, 0, 0, t, -t, 0, -t, t];
                    assert_eq!(out[i], block[7 - (end - i)]);
                }
                _ => assert_eq!(out[i], ami[i]),
            }
        }
    }
}

#[test]
fn b8zs_never_rests_for_eight_levels() {
    for text in bit_strings(14) {
        let out = b8zs(&text).unwrap();
        assert_eq!(out.len(), text.len());
        assert!(out.windows(8).all(|w| w.iter().any(|x| *x != 0)));
        assert!(out.iter().all(|x| *x == -1 || *x == 0 || *x == 1));
    }
}

#[test]
fn hdb3_never_rests_for_four_levels() {
    for text in bit_strings(14) {
        let out = hdb3(&text).unwrap();
        assert_eq!(out.len(), text.len());
        assert!(out.windows(4).all(|w| w.iter().any(|x| *x != 0)));
        assert!(out.iter().all(|x| *x == -1 || *x == 0 || *x == 1));
    }
}

#[test]
fn hdb3_parity_corrections_are_an_odd_number_of_marks_apart() {
    for text in bit_strings(14) {
        let out = hdb3(&text).unwrap();
        let ends = block_ends(&text, 4);
        for pair in ends.windows(2) {
            let (i, j) = (pair[0], pair[1]);
            let marks = text[i + 1..j].matches('1').count();
            // The even case leaves the first place of its block at zero.
            let corrects_parity = out[j - 3] == 0;
            assert_eq!(corrects_parity, marks % 2 == 1);
        }
    }
}

#[test]
fn marks_keep_their_place_under_substitution() {
    for text in bit_strings(12) {
        let b = b8zs(&text).unwrap();
        let h = hdb3(&text).unwrap();
        let ami = ami_encoder(&bits(&text));
        for (i, c) in text.chars().enumerate() {
            if c == '1' {
                assert_eq!(b[i], ami[i]);
                assert_ne!(h[i], 0);
            }
        }
    }
}

#[test]
fn settings_encode_under_the_code_they_name() {
    assert_eq!(settings("101", Encodings::AMI, Scrambling::Off).encode(), Ok(vec![1, 0, -1]));
    assert_eq!(settings("101", Encodings::NRZL, Scrambling::HDB3).encode(), Ok(vec![1, -1, 1]));
    assert_eq!(
        settings("10000", Encodings::AMI, Scrambling::HDB3).encode(),
        Ok(vec![1, 0, 0, 0, -1])
    );
    assert_eq!(
        settings("1 0", Encodings::Manchester, Scrambling::Off).encode(),
        Err(InvalidSymbol { position: 1 })
    );
    // A line code keeps to its own rule, whatever the settings name.
    assert_eq!(NRZL.encode(&settings("10", Encodings::AMI, Scrambling::B8ZS)), Ok(vec![1, -1]));
}
