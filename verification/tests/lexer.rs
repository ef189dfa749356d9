use logos::lexer::{Lexer, Logos};

#[derive(Debug, PartialEq, Clone, Copy)]
enum Word {
    Error,
    Word,
    Space,
}

fn is_letter(b: u8) -> bool {
    b.is_ascii_alphabetic()
}

impl<'s> Logos<'s> for Word {
    type Extras = usize;
    type Source = str;

    fn error() -> Self {
        Word::Error
    }

    fn lex(lex: &mut Lexer<'s, Self>) {
        lex.extras += 1;
        let first = match lex.read::<u8>() {
            None => return lex.end(),
            Some(b) => b,
        };
        let kind = if is_letter(first) {
            Word::Word
        } else if first == b' ' {
            Word::Space
        } else {
            lex.bump_unchecked(1);
            return lex.error();
        };
        while let Some(b) = lex.read::<u8>() {
            let same = if kind == Word::Word { is_letter(b) } else { b == b' ' };
            if !same {
                break;
            }
            lex.bump_unchecked(1);
        }
        lex.set(kind);
    }
}

#[derive(Debug, PartialEq)]
enum Other {
    Error,
}

impl<'s> Logos<'s> for Other {
    type Extras = usize;
    type Source = str;

    fn error() -> Self {
        Other::Error
    }

    fn lex(lex: &mut Lexer<'s, Self>) {
        lex.end();
    }
}

#[test]
fn lexer_reads_tokens_with_spans() {
    let mut lex = Lexer::<Word>::new("ab  cd!");
    assert_eq!(lex.next(), Some(Word::Word));
    assert_eq!(lex.span(), 0..2);
    assert_eq!(lex.slice(), "ab");
    assert_eq!(lex.remainder(), "  cd!");
    assert_eq!(lex.next(), Some(Word::Space));
    assert_eq!(lex.range(), 2..4);
    assert_eq!(lex.next(), Some(Word::Word));
    assert_eq!(lex.slice(), "cd");
    assert_eq!(lex.next(), Some(Word::Error));
    assert_eq!(lex.span(), 6..7);
    assert_eq!(lex.next(), None);
    assert_eq!(lex.extras, 5);
    assert_eq!(lex.source(), "ab  cd!");
}

#[test]
fn errors_end_at_a_character_boundary() {
    let mut lex = Lexer::<Word>::new("\u{e9}x");
    assert_eq!(lex.next(), Some(Word::Error));
    assert_eq!(lex.span(), 0..2);
    assert_eq!(lex.slice(), "\u{e9}");
    assert_eq!(lex.next(), Some(Word::Word));
    assert_eq!(lex.span(), 2..3);
}

#[test]
fn spanned_pairs_tokens_with_ranges() {
    let mut spanned = Lexer::<Word>::new("a b").spanned();
    assert_eq!(spanned.next(), Some((Word::Word, 0..1)));
    assert_eq!(spanned.next(), Some((Word::Space, 1..2)));
    assert_eq!(spanned.next(), Some((Word::Word, 2..3)));
    assert_eq!(spanned.next(), None);
}

#[test]
fn peeking_keeps_the_token() {
    let mut peekable = Lexer::<Word>::new("ab c").peekable();
    assert_eq!(peekable.peek(), Some(&Word::Word));
    assert_eq!(peekable.peek(), Some(&Word::Word));
    assert_eq!(peekable.span(), 0..2);
    assert_eq!(peekable.slice(), "ab");
    assert_eq!(*peekable.extras(), 1);
    assert_eq!(peekable.next(), Some(Word::Word));
    assert_eq!(peekable.next(), Some(Word::Space));
    assert_eq!(peekable.next(), Some(Word::Word));
    assert_eq!(peekable.peek(), None);
    assert_eq!(peekable.next(), None);
}

#[test]
fn bumping_and_reading_ahead() {
    let mut lex = Lexer::<Word>::new("abc");
    assert_eq!(lex.read::<u8>(), Some(b'a'));
    assert_eq!(lex.read_at::<u8>(2), Some(b'c'));
    assert_eq!(lex.read_at::<u8>(3), None);
    assert_eq!(lex.read::<&[u8; 2]>(), Some(b"ab"));
    assert!(lex.test::<u8, _>(|b| b == b'a'));
    assert!(!lex.test_at::<u8, _>(1, |b| b == b'a'));
    assert!(!lex.test_at::<u8, _>(5, |_| true));
    lex.bump(2);
    assert_eq!(lex.span(), 0..2);
    lex.trivia();
    assert_eq!(lex.span(), 2..2);
    lex.set(Word::Word);
    assert_eq!(lex.next(), Some(Word::Word));
    assert_eq!(lex.span(), 2..3);
}

#[test]
fn morphing_keeps_the_span() {
    let mut lex = Lexer::<Word>::new("ab cd");
    lex.next();
    let mut other: Lexer<Other> = lex.morph();
    assert_eq!(other.span(), 0..2);
    assert_eq!(other.extras, 1);
    assert_eq!(other.next(), None);
}

#[test]
fn peekable_nth_and_size_hint() {
    let mut peekable = Lexer::<Word>::new("a b c").peekable();
    assert_eq!(peekable.size_hint(), (0, None));
    assert_eq!(peekable.peek(), Some(&Word::Word));
    assert_eq!(peekable.size_hint(), (1, None));
    assert_eq!(peekable.nth(0), Some(Word::Word));
    assert_eq!(peekable.nth(1), Some(Word::Word));
    assert_eq!(peekable.span(), 2..3);
    assert_eq!(peekable.nth(5), None);
    assert_eq!(peekable.peek(), None);
    assert_eq!(peekable.size_hint(), (0, Some(0)));
    assert_eq!(peekable.nth(0), None);
}

#[test]
fn lexer_with_extras_starts_at_the_beginning() {
    let mut lex = Lexer::<Word>::with_extras("ab", 40);
    assert_eq!(lex.span(), 0..0);
    assert_eq!(lex.next(), Some(Word::Word));
    assert_eq!(lex.extras, 41);
}
