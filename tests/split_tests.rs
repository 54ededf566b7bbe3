use mapreduce::split::{align_chunks, normalize_text, split_text};

fn is_space(b: u8) -> bool {
    b == b' ' || b == b'\t' || b == b'\n' || b == b'\r' || b == 0x0c
}

#[test]
fn normalize_lowercases_and_blanks_punctuation() {
    assert_eq!(normalize_text("Hello, World!"), "hello  world ");
    assert_eq!(normalize_text("(a)\"b\".c;d:e'f`g-h?i_j!k\nl"), " a  b  c d e f g h i j k l");
    assert_eq!(normalize_text("ÉTÉ Ünïcode"), "ÉtÉ Ünïcode");
    assert_eq!(normalize_text(""), "");
}

#[test]
fn split_reproduces_the_normalized_text() {
    let input = "It is a truth universally acknowledged, that a single man\nin possession of a good fortune, must be in want of a wife.";
    for size in [1usize, 5, 10, 16, 40, 1000].iter() {
        let chunks = split_text(input, *size);
        let joined: Vec<u8> = chunks.concat();
        assert_eq!(joined, normalize_text(input).into_bytes());
        for c in chunks.iter() {
            assert!(!c.is_empty());
        }
        for w in chunks.windows(2) {
            assert!(is_space(*w[0].last().unwrap()) || is_space(w[1][0]));
        }
    }
}

#[test]
fn split_cuts_into_several_chunks() {
    let input = "one two three four five six seven eight nine ten";
    let chunks = split_text(input, 10);
    assert!(chunks.len() > 1);
    let whole = split_text(input, 1000);
    assert_eq!(whole, vec![input.as_bytes().to_vec()]);
}

#[test]
fn split_keeps_long_words_whole() {
    let chunks = split_text("abcdefghijklmnop qr", 4);
    let words: Vec<String> = chunks
        .iter()
        .flat_map(|c| String::from_utf8(c.clone()).unwrap().split_ascii_whitespace().map(|s| s.to_string()).collect::<Vec<_>>())
        .collect();
    assert_eq!(words, vec!["abcdefghijklmnop", "qr"]);
}

#[test]
fn split_of_empty_input_is_empty() {
    assert!(split_text("", 10).is_empty());
    assert_eq!(split_text("ab", 0).concat(), b"ab".to_vec());
}

#[test]
fn align_moves_cuts_to_word_ends() {
    let text = b"ab cd ef".to_vec();
    assert_eq!(align_chunks(&text, &vec![0, 1, 4, 7]), vec![b"ab".to_vec(), b" cd".to_vec(), b" ef".to_vec()]);
    assert_eq!(align_chunks(&text, &vec![0, 3]), vec![b"ab ".to_vec(), b"cd ef".to_vec()]);
    assert_eq!(align_chunks(&text, &vec![0, 20]), vec![text.clone()]);
    assert!(align_chunks(&Vec::new(), &vec![0]).is_empty());
}

#[test]
fn split_keeps_chunks_within_size_when_words_fit() {
    let input = "one two three four five six seven eight nine ten eleven twelve";
    let chunks = split_text(input, 10);
    assert!(chunks.len() > 3);
    for c in chunks.iter() {
        assert!(String::from_utf8(c.clone()).unwrap().chars().count() <= 10);
    }
}

#[test]
fn split_bounds_chunks_in_bytes_when_words_fit() {
    let cases: [(&str, usize); 5] = [
        ("\r\ra", 1),
        ("xx ab/cd", 5),
        ("a&b c&d e&f g&h", 3),
        ("über café été", 6),
        ("one\r\n\r\ntwo three\r\rfour", 5),
    ];
    for (input, size) in cases.iter() {
        let chunks = split_text(input, *size);
        assert_eq!(chunks.concat(), normalize_text(input).into_bytes());
        for c in chunks.iter() {
            assert!(c.len() <= *size, "{:?} with size {}: chunk {:?}", input, size, c);
        }
    }
}

#[test]
fn split_keeps_an_overlong_word_whole_and_bounds_the_rest() {
    let chunks = split_text("ab abcdefgh cd ef", 3);
    let texts: Vec<String> = chunks.iter().map(|c| String::from_utf8(c.clone()).unwrap()).collect();
    assert!(texts.iter().any(|t| t.contains("abcdefgh")));
    for t in texts.iter() {
        if !t.contains("abcdefgh") {
            assert!(t.len() <= 3);
        }
    }
}
