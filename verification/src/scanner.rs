//! The scanner's view of a document: a stream of tokens, and the small state
//! machine that finds the plate of each vehicle in it.

use vstd::prelude::*;

verus! {

/// One step of a tokenized document.
#[derive(Debug, PartialEq, Eq)]
pub enum Token {
    /// An opening tag, with its name as written.
    Start(Vec<u8>),
    /// A closing tag, with its name as written.
    End(Vec<u8>),
    /// Character data, decoded and with entities resolved.
    Text(String),
    /// Character data that could not be decoded.
    Garbled,
    /// Any other markup: a comment, a declaration, an empty element, and so on.
    Other,
    /// The document ended.
    Eof,
    /// The markup is broken at byte `position`; nothing follows.
    Malformed { position: u64, reason: String },
    /// The bytes of the document could not be read on; nothing follows.
    Unreadable { reason: String },
}

/// A [`Token`] as a mathematical value. The reason given for a failure is a
/// diagnostic and is left out.
pub ghost enum TokenView {
    Start(Seq<u8>),
    End(Seq<u8>),
    Text(Seq<char>),
    Garbled,
    Other,
    Eof,
    Malformed { position: u64 },
    Unreadable,
}

impl View for Token {
    type V = TokenView;

    open spec fn view(&self) -> TokenView {
        match *self {
            Token::Start(name) => TokenView::Start(name@),
            Token::End(name) => TokenView::End(name@),
            Token::Text(text) => TokenView::Text(text@),
            Token::Garbled => TokenView::Garbled,
            Token::Other => TokenView::Other,
            Token::Eof => TokenView::Eof,
            Token::Malformed { position, .. } => TokenView::Malformed { position },
            Token::Unreadable { .. } => TokenView::Unreadable,
        }
    }
}

/// Whether nothing follows `t` in a document.
pub open spec fn is_terminal(t: TokenView) -> bool {
    t is Eof || t is Malformed || t is Unreadable
}

/// Whether `tokens` is a whole document: it ends, once, with its last
/// token.
pub open spec fn complete(tokens: Seq<TokenView>) -> bool {
    &&& tokens.len() > 0
    &&& is_terminal(tokens.last())
    &&& forall|i: int| 0 <= i < tokens.len() - 1 ==> !is_terminal(#[trigger] tokens[i])
}

/// The name of the element that holds one vehicle, `Vehicle`, in ASCII.
pub open spec fn record_tag() -> Seq<u8> {
    seq![86u8, 101u8, 104u8, 105u8, 99u8, 108u8, 101u8]
}

/// The name of the element that holds a vehicle's plate, `LicensePlate`, in
/// ASCII.
pub open spec fn field_tag() -> Seq<u8> {
    seq![76u8, 105u8, 99u8, 101u8, 110u8, 115u8, 101u8, 80u8, 108u8, 97u8, 116u8, 101u8]
}

/// Whether `name` is the name of the vehicle element.
pub fn is_record_tag(name: &Vec<u8>) -> (yes: bool)
    ensures
        yes == (name@ == record_tag()),
{
    let yes = name.len() == 7 && name[0] == 86 && name[1] == 101 && name[2] == 104 && name[3]
        == 105 && name[4] == 99 && name[5] == 108 && name[6] == 101;
    assert(yes ==> name@ =~= record_tag());
    yes
}

/// Whether `name` is the name of the plate element.
pub fn is_field_tag(name: &Vec<u8>) -> (yes: bool)
    ensures
        yes == (name@ == field_tag()),
{
    let yes = name.len() == 12 && name[0] == 76 && name[1] == 105 && name[2] == 99 && name[3]
        == 101 && name[4] == 110 && name[5] == 115 && name[6] == 101 && name[7] == 80
        && name[8] == 108 && name[9] == 97 && name[10] == 116 && name[11] == 101;
    assert(yes ==> name@ =~= field_tag());
    yes
}

/// Where the scanner stands in a document.
#[derive(Debug)]
pub struct ParseState {
    /// Inside a vehicle element.
    pub in_record: bool,
    /// Inside a plate element.
    pub in_field: bool,
    /// The plate text seen for the current vehicle, if any.
    pub pending: Option<String>,
}

/// A [`ParseState`] as a mathematical value.
pub ghost struct ParseStateView {
    pub in_record: bool,
    pub in_field: bool,
    pub pending: Option<Seq<char>>,
}

impl View for ParseState {
    type V = ParseStateView;

    open spec fn view(&self) -> ParseStateView {
        ParseStateView {
            in_record: self.in_record,
            in_field: self.in_field,
            pending: match self.pending {
                Some(text) => Some(text@),
                None => None,
            },
        }
    }
}

/// The state in which every document starts: outside everything, with no
/// text held.
pub open spec fn initial_state() -> ParseStateView {
    ParseStateView { in_record: false, in_field: false, pending: None }
}

/// The state that follows `s` when `t` is read.
pub open spec fn next_state(s: ParseStateView, t: TokenView) -> ParseStateView {
    match t {
        TokenView::Start(name) => if name == record_tag() {
            ParseStateView { in_record: true, in_field: s.in_field, pending: None }
        } else if name == field_tag() && s.in_record {
            ParseStateView { in_record: s.in_record, in_field: true, pending: s.pending }
        } else {
            s
        },
        TokenView::Text(text) => if s.in_record && s.in_field {
            ParseStateView { in_record: s.in_record, in_field: s.in_field, pending: Some(text) }
        } else {
            s
        },
        TokenView::End(name) => if name == field_tag() {
            ParseStateView { in_record: s.in_record, in_field: false, pending: s.pending }
        } else if name == record_tag() {
            ParseStateView { in_record: false, in_field: s.in_field, pending: s.pending }
        } else {
            s
        },
        _ => s,
    }
}

/// The identifier that reading `t` in state `s` yields: the text held, when
/// `t` closes a vehicle and that text is not empty.
pub open spec fn emission(s: ParseStateView, t: TokenView) -> Option<Seq<char>> {
    match t {
        TokenView::End(name) => if name == record_tag() && s.pending is Some
            && s.pending->Some_0.len() > 0 {
            s.pending
        } else {
            None
        },
        _ => None,
    }
}

/// The state reached from `s` when all of `tokens` have been read in order.
pub open spec fn state_after(s: ParseStateView, tokens: Seq<TokenView>) -> ParseStateView
    decreases tokens.len(),
{
    if tokens.len() == 0 {
        s
    } else {
        next_state(state_after(s, tokens.drop_last()), tokens.last())
    }
}

/// The identifiers yielded, in order, when all of `tokens` are read from
/// state `s`.
pub open spec fn emitted(s: ParseStateView, tokens: Seq<TokenView>) -> Seq<Seq<char>>
    decreases tokens.len(),
{
    if tokens.len() == 0 {
        Seq::empty()
    } else {
        let before = tokens.drop_last();
        match emission(state_after(s, before), tokens.last()) {
            Some(id) => emitted(s, before).push(id),
            None => emitted(s, before),
        }
    }
}

impl ParseState {
    /// The state in which every document starts.
    pub fn new() -> (state: Self)
        ensures
            state@ == initial_state(),
    {
        ParseState { in_record: false, in_field: false, pending: None }
    }

    /// Reads one token: moves to the next state and returns the identifier
    /// of the vehicle that the token completes, if it completes one.
    pub fn step(&mut self, token: &Token) -> (id: Option<String>)
        ensures
            final(self)@ == next_state(old(self)@, token@),
            match id {
                Some(text) => emission(old(self)@, token@) == Some(text@),
                None => emission(old(self)@, token@) is None,
            },
    {
        match token {
            Token::Start(name) => {
                if is_record_tag(name) {
                    self.in_record = true;
                    self.pending = None;
                } else if is_field_tag(name) && self.in_record {
                    self.in_field = true;
                }
                None
            },
            Token::Text(text) => {
                if self.in_record && self.in_field {
                    self.pending = Some(text.clone());
                }
                None
            },
            Token::End(name) => {
                if is_field_tag(name) {
                    self.in_field = false;
                    None
                } else if is_record_tag(name) {
                    self.in_record = false;
                    match &self.pending {
                        Some(text) => {
                            if text.as_str().is_empty() {
                                None
                            } else {
                                Some(text.clone())
                            }
                        },
                        None => None,
                    }
                } else {
                    None
                }
            },
            _ => None,
        }
    }
}

} // verus!
