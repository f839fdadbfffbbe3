use std::str::FromStr;

use uhttp_transfer_encoding::StdTransferEncoding::{Chunked, Compress, Deflate, Gzip};
use uhttp_transfer_encoding::TransferEncoding::{Other, Std};
use uhttp_transfer_encoding::{transfer_encodings, StdTransferEncoding, TransferEncoding};

const PADS: [&str; 7] = ["", " ", "\t", "\r\n", "  \t ", "\u{b}\u{c}", " \n \r \t "];

fn pad(before: &str, name: &str, after: &str) -> String {
    let mut s = String::from(before);
    s.push_str(name);
    s.push_str(after);
    s
}

fn every_case(name: &str) -> Vec<String> {
    let letters: Vec<char> = name.chars().collect();
    let mut all = Vec::new();
    for mask in 0..(1u32 << letters.len()) {
        let mut s = String::new();
        for (i, c) in letters.iter().enumerate() {
            if mask & (1 << i) != 0 {
                s.push(c.to_ascii_uppercase());
            } else {
                s.push(*c);
            }
        }
        all.push(s);
    }
    all
}

#[test]
fn a_padded_standard_name_in_any_case_is_standard() {
    let names = [
        ("chunked", Chunked),
        ("compress", Compress),
        ("deflate", Deflate),
        ("gzip", Gzip),
    ];
    for (name, coding) in names {
        let spellings = every_case(name);
        assert_eq!(spellings.len(), 1 << name.len());
        for spelling in &spellings {
            assert_eq!(StdTransferEncoding::from_str(spelling), Ok(coding));
            assert_eq!(TransferEncoding::new(spelling), Std(coding));
        }
        for before in PADS {
            for after in PADS {
                let token = pad(before, &spellings[spellings.len() / 3], after);
                assert_eq!(TransferEncoding::new(&token), Std(coding));
            }
        }
    }
}

#[test]
fn anything_else_is_other_with_the_trimmed_token() {
    let names = [
        "",
        "custom-enc",
        "chun ked",
        "chun\tked",
        "gzip1",
        "g-zip",
        "deflate.",
        "com press",
        "gzipgzip",
        "chunkedd",
        "hello",
        "ÆØБД❤",
        "g\u{a0}zip",
    ];
    for name in names {
        for before in PADS {
            for after in PADS {
                let token = pad(before, name, after);
                assert_eq!(TransferEncoding::new(&token), Other(name));
            }
        }
    }
}

#[test]
fn classifying_a_name_handed_out_gives_it_back() {
    let tokens = [
        "  x  ",
        "\tcustom enc\r\n",
        "",
        "   ",
        " gzip ",
        " \u{a0} ",
        "ÆØБД❤ ",
    ];
    for token in tokens {
        let first = TransferEncoding::new(token);
        if let Other(name) = first {
            assert_eq!(TransferEncoding::new(name), first);
        } else {
            assert_eq!(first, Std(Gzip));
        }
    }
}

#[test]
fn as_many_codings_as_commas_and_one_more() {
    let values = [
        "",
        ",",
        ",,",
        "a",
        "a,b",
        "a,,b",
        ", gzip ,",
        "chunked, gzip, compress",
        "  ChuNKEd    ,\t\t gZIp\r\r, coMPRess\n\t   ,       ,",
        "é,ü,❤,,",
        "no commas at all",
    ];
    for value in values {
        let commas = value.chars().filter(|c| *c == ',').count();
        let mut encs = transfer_encodings(value);
        let mut pulled = 0;
        while encs.next().is_some() {
            pulled += 1;
        }
        assert_eq!(pulled, commas + 1);
        assert_eq!(transfer_encodings(value).collect().len(), commas + 1);
    }
    let long = ",".repeat(1000);
    assert_eq!(transfer_encodings(&long).collect().len(), 1001);
}

#[test]
fn codings_come_in_the_reverse_of_the_listed_order() {
    let lists: [&[&str]; 6] = [
        &["a"],
        &["a", "b"],
        &["first", "second", "third", "fourth"],
        &[" gzip", "x ", "", " chunked ", "\tDEFLATE", "é"],
        &["", ""],
        &["b", "a", "b", "a", "a"],
    ];
    for items in lists {
        let value = items.join(",");
        let codings = transfer_encodings(&value).collect();
        assert_eq!(codings.len(), items.len());
        for (i, coding) in codings.iter().enumerate() {
            assert_eq!(*coding, TransferEncoding::new(items[items.len() - 1 - i]));
        }
    }
    assert_eq!(
        transfer_encodings("a,b,c").collect(),
        vec![Other("c"), Other("b"), Other("a")]
    );
}
