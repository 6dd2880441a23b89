//! The tokenizer: the outside reader that turns an entry's bytes into
//! tokens, one at a time.

use vstd::prelude::*;
use quick_xml::events::Event;
use crate::archive::entry_of;
use crate::scanner::{complete, Token, TokenView};

verus! {

/// `std::io::BufReader`, the buffer between an entry and the tokenizer.
#[verifier::external_type_specification]
#[verifier::external_body]
#[verifier::reject_recursive_types(R)]
pub struct ExBufReader<R: ?Sized>(std::io::BufReader<R>);

/// `quick_xml::Reader`, the tokenizer.
#[verifier::external_type_specification]
#[verifier::external_body]
#[verifier::reject_recursive_types(R)]
pub struct ExReader<R>(quick_xml::Reader<R>);

/// The tokens that a reader has yet to give, up to and with the one that
/// ends the document.
pub uninterp spec fn pending(
    reader: quick_xml::Reader<std::io::BufReader<zip::read::ZipFile<'_>>>,
) -> Seq<TokenView>;

/// Sets a tokenizer on an entry with `Reader::from_reader`, over a buffer,
/// and has it trim the white space around text with `trim_text`. It is yet to
/// give all the tokens of the entry, and they end: the entry's content is
/// finite, and the reader stops for good at its end or at the first error.
#[verifier::external_body]
pub(crate) fn open_reader<'a>(file: zip::read::ZipFile<'a>, trim: bool) -> (reader:
    quick_xml::Reader<std::io::BufReader<zip::read::ZipFile<'a>>>)
    requires
        trim,
    ensures
        pending(reader) == entry_of(file).tokens,
        complete(pending(reader)),
{
    let mut reader = quick_xml::Reader::from_reader(std::io::BufReader::new(file));
    reader.trim_text(trim);
    reader
}

/// Takes the next token with `Reader::read_event_into`, `buffer` being the
/// space in which the reader keeps what it reads. The token is the first of
/// those that the reader had yet to give, and the rest are left. Text is
/// decoded with `unescape`; an error from the bytes below is told apart from
/// one in the markup, whose place is `buffer_position`.
#[verifier::external_body]
pub(crate) fn next_token(
    reader: &mut quick_xml::Reader<std::io::BufReader<zip::read::ZipFile<'_>>>,
    buffer: &mut Vec<u8>,
) -> (token: Token)
    requires
        pending(*old(reader)).len() > 0,
    ensures
        token@ == pending(*old(reader))[0],
        pending(*final(reader)) == pending(*old(reader)).skip(1),
{
    match reader.read_event_into(buffer) {
        Ok(Event::Start(e)) => Token::Start(e.name().as_ref().to_vec()),
        Ok(Event::End(e)) => Token::End(e.name().as_ref().to_vec()),
        Ok(Event::Text(e)) => match e.unescape() {
            Ok(text) => Token::Text(text.into_owned()),
            Err(_) => Token::Garbled,
        },
        Ok(Event::Eof) => Token::Eof,
        Ok(_) => Token::Other,
        Err(quick_xml::Error::Io(e)) => Token::Unreadable { reason: e.to_string() },
        Err(e) => {
            Token::Malformed { position: reader.buffer_position() as u64, reason: e.to_string() }
        },
    }
}

} // verus!
