//! Text: documents, the alphabet, tokens and batches.
use microgpt::batch::{masked_targets, Batch};
use microgpt::text::{documents, is_whitespace, Tokenizer};

fn chars(s: &str) -> Vec<char> {
    s.chars().collect()
}

#[test]
fn documents_are_trimmed_lines_that_hold_something() {
    let docs = documents("  emma \r\nolivia\n\n \t \nava\u{a0}\n\u{3000}zoe");
    assert_eq!(docs, vec![chars("emma"), chars("olivia"), chars("ava"), chars("zoe")]);
    assert!(documents("").is_empty());
    assert!(documents("\n \n").is_empty());
    assert_eq!(documents("a b\n"), vec![chars("a b")]);
    assert_eq!(documents("a\rb\r\n"), vec![chars("a\rb")]);
}

#[test]
fn documents_agree_with_the_standard_library() {
    for text in ["a\n\nb", "\u{85}x\u{2028}y\n", "p\r\n\r\nq\r", "one\n two\nthree \n"] {
        let want: Vec<Vec<char>> =
            text.lines().map(str::trim).filter(|l| !l.is_empty()).map(chars).collect();
        assert_eq!(documents(text), want);
    }
}

#[test]
fn whitespace_is_that_of_the_standard_library() {
    for c in '\u{0}'..='\u{10FFFF}' {
        assert_eq!(is_whitespace(c), c.is_whitespace(), "{c:?}");
    }
}

#[test]
fn the_alphabet_is_sorted_and_without_repetition() {
    let docs = vec![chars("emma"), chars("ava")];
    let t = Tokenizer::new(&docs);
    assert_eq!(t.uchars, vec!['a', 'e', 'm', 'v']);
    assert_eq!(t.bos(), 4);
    assert_eq!(t.vocab_size(), 5);
    assert_eq!(t.encode(&docs[0]), vec![4, 1, 2, 2, 0, 4]);
    assert_eq!(t.encode(&vec![]), vec![4, 4]);
    assert_eq!(t.id_of('v'), 3);
    assert_eq!(t.char_of(1), 'e');
    let back: Vec<char> = t.encode(&docs[1])[1..4].iter().map(|&k| t.char_of(k)).collect();
    assert_eq!(back, docs[1]);
}

#[test]
fn a_batch_of_one_is_as_long_as_its_document() {
    let docs = vec![chars("emma"), chars("ava")];
    let t = Tokenizer::new(&docs);
    let b = Batch::assemble(&t, &docs, 1, 16, 3);
    assert_eq!(b.t_len, 4);
    assert_eq!(b.tokens, vec![4, 0, 3, 0]);
    assert_eq!(b.targets, vec![0, 3, 0, 4]);
    let clipped = Batch::assemble(&t, &docs, 1, 3, 0);
    assert_eq!(clipped.tokens, vec![4, 1, 2]);
    assert_eq!(clipped.targets, vec![1, 2, 2]);
}

#[test]
fn a_larger_batch_is_padded_and_masked() {
    let docs = vec![chars("emma"), chars("ava"), chars("m")];
    let t = Tokenizer::new(&docs);
    // step 1 of two documents each: the third, then the first again
    let b = Batch::assemble(&t, &docs, 2, 6, 1);
    assert_eq!(b.t_len, 6);
    assert_eq!(b.tokens, vec![4, 2, 4, 4, 4, 4, 4, 1, 2, 2, 0, 4]);
    assert_eq!(b.targets, vec![2, 4, -1, -1, -1, -1, 1, 2, 2, 0, 4, -1]);
    let (clamped, mask) = masked_targets(&b.targets);
    assert_eq!(clamped, vec![2, 4, 0, 0, 0, 0, 1, 2, 2, 0, 4, 0]);
    assert_eq!(mask.iter().filter(|&&m| m).count(), 7);
    assert!(mask[1] && !mask[2] && !mask[11]);
}
