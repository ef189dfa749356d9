use logos::internal::{from_bool, from_option, from_result, from_skip_result, skip, skip_from_result, CallbackResult, Filter, FilterResult, Skip, SkipResult};
use logos::source::{Chunk, Slice, Source};

#[test]
fn str_source_reads_and_slices() {
    let foo: &str = "foo";
    assert_eq!(Source::read::<&[u8; 3]>(foo, 0), Some(b"foo"));
    assert_eq!(Source::read::<&[u8; 2]>(foo, 0), Some(b"fo"));
    assert_eq!(Source::read::<u8>(foo, 2), Some(b'o'));
    assert_eq!(Source::read::<&[u8; 4]>(foo, 0), None);
    assert_eq!(Source::read::<&[u8; 2]>(foo, 2), None);

    let text = "It was the year when they finally immanentized the Eschaton.";
    assert_eq!(Source::slice(text, 51, 59), Some("Eschaton"));
    assert_eq!(Source::slice(text, 59, 51), None);
    assert_eq!(Source::len(text), 60);
}

#[test]
fn str_boundaries() {
    let text = "aé";
    assert!(Source::is_boundary(text, 1));
    assert!(!Source::is_boundary(text, 2));
    assert!(Source::is_boundary(text, 3));
    assert!(!Source::is_boundary(text, 4));
    assert_eq!(Source::find_boundary(text, 2), 3);
    assert_eq!(Source::slice(text, 0, 2), None);
}

#[test]
fn byte_source() {
    let bytes: &[u8] = &[1, 2, 3];
    assert_eq!(Source::read::<u8>(bytes, 2), Some(3));
    assert_eq!(Source::read::<u8>(bytes, 3), None);
    assert_eq!(Source::slice(bytes, 1, 3), Some(&[2u8, 3][..]));
    assert_eq!(Source::find_boundary(bytes, 1), 1);
    assert!(Source::is_boundary(bytes, 3));
    assert!(!Source::is_boundary(bytes, 4));
    assert_eq!(<u8 as Chunk>::size(), 1);
    let s: &[u8] = b"ab";
    assert_eq!(Slice::as_bytes(&s), b"ab");
    let t: &str = "ab";
    assert_eq!(Slice::as_bytes(&t), b"ab");
}

#[test]
fn callback_results() {
    let r: CallbackResult<u32, ()> = Filter::Emit(2u32).construct(|v| v * 10);
    assert_eq!(r, CallbackResult::Emit(20));
    let r: CallbackResult<u32, ()> = Filter::<u32>::Skip.construct(|v| v);
    assert_eq!(r, CallbackResult::Skip);
    let r: CallbackResult<u32, &str> = FilterResult::Error("bad").construct(|v: u32| v);
    assert_eq!(r, CallbackResult::Error("bad"));
    let r: CallbackResult<u32, ()> = from_option(None::<u32>, |v| v);
    assert_eq!(r, CallbackResult::DefaultError);
    let r: CallbackResult<u32, &str> = from_result(Ok::<u32, &str>(1), |v| v + 1);
    assert_eq!(r, CallbackResult::Emit(2));
    let r: CallbackResult<char, ()> = from_bool(false, 'x');
    assert_eq!(r, CallbackResult::DefaultError);
    let r: CallbackResult<char, u8> = from_skip_result(Err::<Skip, u8>(4));
    assert_eq!(r, CallbackResult::Error(4));
    assert_eq!(skip_from_result(Ok::<(), u8>(())), SkipResult::Skip);
    let r: CallbackResult<char, u8> = SkipResult::Error(9).into_callback();
    assert_eq!(r, CallbackResult::Error(9));
    assert_eq!(skip(), Skip);
}

#[test]
fn reading_within_a_slice() {
    let text: &str = "hello world";
    let part = Source::slice(text, 6, 11).unwrap();
    let inner: Option<&[u8; 2]> = Source::read(part, 1);
    let outer: Option<&[u8; 2]> = Source::read(text, 7);
    assert_eq!(inner, outer);
    assert_eq!(inner, Some(b"or"));
}
