//! Documents as they are meant to be: vehicles one after the other, each
//! with at most one plate, and anything else around them. What a scan finds
//! in such a document is stated and proved here.

use vstd::prelude::*;
use crate::scanner::{
    emission, emitted, field_tag, initial_state, is_terminal, next_state, record_tag,
    state_after, ParseStateView, TokenView,
};

verus! {

/// Reading `first` and then `second` is reading the two in a row: the state
/// goes through, and what is found in each adds up.
pub proof fn lemma_scan_in_turn(s: ParseStateView, first: Seq<TokenView>, second: Seq<TokenView>)
    ensures
        state_after(s, first + second) == state_after(state_after(s, first), second),
        emitted(s, first + second) == emitted(s, first) + emitted(
            state_after(s, first),
            second,
        ),
    decreases second.len(),
{
    if second.len() == 0 {
        assert(first + second =~= first);
        assert(emitted(s, first) + Seq::<Seq<char>>::empty() =~= emitted(s, first));
    } else {
        let both = first + second;
        assert(both.drop_last() =~= first + second.drop_last());
        assert(both.last() == second.last());
        lemma_scan_in_turn(s, first, second.drop_last());
        let before = emitted(s, first) + emitted(state_after(s, first), second.drop_last());
        match emission(state_after(s, both.drop_last()), both.last()) {
            Some(id) => {
                assert(before.push(id) =~= emitted(s, first) + emitted(
                    state_after(s, first),
                    second.drop_last(),
                ).push(id));
            },
            None => {},
        }
    }
}

/// Reading a single token.
pub proof fn lemma_scan_one(s: ParseStateView, t: TokenView)
    ensures
        state_after(s, seq![t]) == next_state(s, t),
        emitted(s, seq![t]) == match emission(s, t) {
            Some(id) => seq![id],
            None => Seq::<Seq<char>>::empty(),
        },
{
    let one = seq![t];
    assert(one.drop_last() =~= Seq::<TokenView>::empty());
    assert(one.last() == t);
    assert(state_after(s, one.drop_last()) == s);
    assert(emitted(s, one.drop_last()) =~= Seq::<Seq<char>>::empty());
    match emission(s, t) {
        Some(id) => {
            assert(Seq::<Seq<char>>::empty().push(id) =~= seq![id]);
        },
        None => {},
    }
}

/// Whether `t` is something other than the markup of a vehicle or a plate,
/// and no end of the document: text, a comment, any other element.
pub open spec fn is_filler(t: TokenView) -> bool {
    match t {
        TokenView::Start(name) => name != record_tag() && name != field_tag(),
        TokenView::End(name) => name != record_tag() && name != field_tag(),
        TokenView::Text(_) => true,
        TokenView::Garbled => true,
        TokenView::Other => true,
        _ => false,
    }
}

/// Whether all of `tokens` are filler.
pub open spec fn all_filler(tokens: Seq<TokenView>) -> bool {
    forall|i: int| 0 <= i < tokens.len() ==> is_filler(#[trigger] tokens[i])
}

/// Outside a plate element filler changes nothing and yields nothing.
pub proof fn lemma_filler_is_passed_over(s: ParseStateView, tokens: Seq<TokenView>)
    requires
        !s.in_field,
        all_filler(tokens),
    ensures
        state_after(s, tokens) == s,
        emitted(s, tokens) == Seq::<Seq<char>>::empty(),
    decreases tokens.len(),
{
    if tokens.len() > 0 {
        assert(all_filler(tokens.drop_last())) by {
            assert forall|i: int| 0 <= i < tokens.drop_last().len() implies is_filler(
                #[trigger] tokens.drop_last()[i],
            ) by {
                assert(tokens.drop_last()[i] == tokens[i]);
            }
        }
        lemma_filler_is_passed_over(s, tokens.drop_last());
        assert(is_filler(tokens[tokens.len() - 1]));
    }
}

/// One vehicle element of a document, with what stands before it.
pub ghost struct Vehicle {
    /// What stands between the vehicle before and this one: filler.
    pub lead: Seq<TokenView>,
    /// What the vehicle holds before its plate: filler.
    pub before: Seq<TokenView>,
    /// The text of the vehicle's plate element; nothing where it has none.
    pub plate: Option<Seq<char>>,
    /// What the vehicle holds after its plate: filler.
    pub after: Seq<TokenView>,
}

/// Whether the parts of `v` that are to be filler are.
pub open spec fn well_formed(v: Vehicle) -> bool {
    all_filler(v.lead) && all_filler(v.before) && all_filler(v.after)
}

/// The tokens of a plate element with the text `plate`: an empty text gives
/// no token.
pub open spec fn plate_tokens(plate: Option<Seq<char>>) -> Seq<TokenView> {
    match plate {
        Some(text) => if text.len() > 0 {
            seq![
                TokenView::Start(field_tag()),
                TokenView::Text(text),
                TokenView::End(field_tag()),
            ]
        } else {
            seq![TokenView::Start(field_tag()), TokenView::End(field_tag())]
        },
        None => Seq::empty(),
    }
}

/// The tokens of `v`, its lead first.
pub open spec fn vehicle_tokens(v: Vehicle) -> Seq<TokenView> {
    v.lead + seq![TokenView::Start(record_tag())] + v.before + plate_tokens(v.plate) + v.after
        + seq![TokenView::End(record_tag())]
}

/// The tokens of the vehicles `vehicles`, one after the other.
pub open spec fn document_tokens(vehicles: Seq<Vehicle>) -> Seq<TokenView>
    decreases vehicles.len(),
{
    if vehicles.len() == 0 {
        Seq::empty()
    } else {
        document_tokens(vehicles.drop_last()) + vehicle_tokens(vehicles.last())
    }
}

/// The plate that a vehicle is to yield: its plate text where it has one
/// that is not empty.
pub open spec fn plate_of(v: Vehicle) -> Seq<Seq<char>> {
    match v.plate {
        Some(text) => if text.len() > 0 {
            seq![text]
        } else {
            Seq::empty()
        },
        None => Seq::empty(),
    }
}

/// The plates that the vehicles `vehicles` are to yield, in order.
pub open spec fn plates_of(vehicles: Seq<Vehicle>) -> Seq<Seq<char>>
    decreases vehicles.len(),
{
    if vehicles.len() == 0 {
        Seq::empty()
    } else {
        plates_of(vehicles.drop_last()) + plate_of(vehicles.last())
    }
}

/// Whether the scanner stands outside every vehicle and plate.
pub open spec fn is_outside(s: ParseStateView) -> bool {
    !s.in_record && !s.in_field
}

/// A vehicle with a plate text that is not empty yields that text, once; a
/// vehicle with an empty plate or with none yields nothing. Either way the
/// scanner stands outside again after it.
pub proof fn law_vehicle_yields_its_plate(s: ParseStateView, v: Vehicle)
    requires
        is_outside(s),
        well_formed(v),
    ensures
        emitted(s, vehicle_tokens(v)) == plate_of(v),
        is_outside(state_after(s, vehicle_tokens(v))),
{
    let open = seq![TokenView::Start(record_tag())];
    let close = seq![TokenView::End(record_tag())];
    let plate = plate_tokens(v.plate);
    let none = Seq::<Seq<char>>::empty();

    lemma_filler_is_passed_over(s, v.lead);
    lemma_scan_one(s, TokenView::Start(record_tag()));
    lemma_scan_in_turn(s, v.lead, open);
    let s1 = state_after(s, v.lead + open);
    assert(s1 == ParseStateView { in_record: true, in_field: false, pending: None });
    assert(emitted(s, v.lead + open) =~= none);

    lemma_filler_is_passed_over(s1, v.before);
    lemma_scan_in_turn(s, v.lead + open, v.before);
    let upto_before = v.lead + open + v.before;
    assert(state_after(s, upto_before) == s1);
    assert(emitted(s, upto_before) =~= none);

    let s2 = state_after(s1, plate);
    assert(s2 == ParseStateView {
        in_record: true,
        in_field: false,
        pending: if plate_of(v).len() > 0 {
            v.plate
        } else {
            None
        },
    } && emitted(s1, plate) =~= none) by {
        match v.plate {
            Some(text) => {
                let start = TokenView::Start(field_tag());
                let end = TokenView::End(field_tag());
                let sf = next_state(s1, start);
                lemma_scan_one(s1, start);
                if text.len() > 0 {
                    let body = TokenView::Text(text);
                    lemma_scan_one(sf, body);
                    lemma_scan_in_turn(s1, seq![start], seq![body]);
                    assert(seq![start] + seq![body] =~= seq![start, body]);
                    let st = next_state(sf, body);
                    lemma_scan_one(st, end);
                    lemma_scan_in_turn(s1, seq![start, body], seq![end]);
                    assert(seq![start, body] + seq![end] =~= plate);
                } else {
                    lemma_scan_one(sf, end);
                    lemma_scan_in_turn(s1, seq![start], seq![end]);
                    assert(seq![start] + seq![end] =~= plate);
                }
            },
            None => {},
        }
    }
    lemma_scan_in_turn(s, upto_before, plate);
    let upto_plate = upto_before + plate;
    assert(state_after(s, upto_plate) == s2);
    assert(emitted(s, upto_plate) =~= none);

    lemma_filler_is_passed_over(s2, v.after);
    lemma_scan_in_turn(s, upto_plate, v.after);
    let upto_after = upto_plate + v.after;
    assert(state_after(s, upto_after) == s2);
    assert(emitted(s, upto_after) =~= none);

    lemma_scan_one(s2, TokenView::End(record_tag()));
    lemma_scan_in_turn(s, upto_after, close);
    assert(upto_after + close =~= vehicle_tokens(v));
    assert(emitted(s, vehicle_tokens(v)) =~= plate_of(v));
}

/// In a document of vehicles, with anything else around and inside them,
/// the scan finds exactly the plate texts that are not empty, each once and
/// in the order of the vehicles.
pub proof fn law_document_yields_its_plates(vehicles: Seq<Vehicle>)
    requires
        forall|i: int| 0 <= i < vehicles.len() ==> well_formed(#[trigger] vehicles[i]),
    ensures
        emitted(initial_state(), document_tokens(vehicles)) == plates_of(vehicles),
        is_outside(state_after(initial_state(), document_tokens(vehicles))),
    decreases vehicles.len(),
{
    if vehicles.len() > 0 {
        let earlier = vehicles.drop_last();
        assert forall|i: int| 0 <= i < earlier.len() implies well_formed(#[trigger] earlier[i]) by {
            assert(earlier[i] == vehicles[i]);
        }
        law_document_yields_its_plates(earlier);
        let s = state_after(initial_state(), document_tokens(earlier));
        assert(well_formed(vehicles[vehicles.len() - 1]));
        law_vehicle_yields_its_plate(s, vehicles.last());
        lemma_scan_in_turn(
            initial_state(),
            document_tokens(earlier),
            vehicle_tokens(vehicles.last()),
        );
    }
}

/// The end of a document, be it an error, yields nothing and takes nothing
/// back: what was found before it is all that is found.
pub proof fn law_end_keeps_what_was_found(s: ParseStateView, tokens: Seq<TokenView>)
    requires
        tokens.len() > 0,
        is_terminal(tokens.last()),
    ensures
        emitted(s, tokens) == emitted(s, tokens.drop_last()),
{
}

} // verus!
