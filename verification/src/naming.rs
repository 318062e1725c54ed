//! What refusals are called, and how lists run.

use crate::book::{
    better, book_listing, book_wf, ids_distinct, last_level, levels_reversed, sorted, BookV, EntryV,
};
use crate::client::updating;
use crate::decimal::decimal_value;
use crate::laws::{edge, lemma_half_coupled, rows_distinct, symmetric};
use crate::listing::{lemma_last_level, lemma_reversed};
use crate::market::AreaV;
use crate::model::{couplings_with, directions, half_coupled, CouplingV, SubmitError};
use crate::order::{OrderV, Side};
use crate::proto_conv::ConvErrorV;
use crate::render::joined;
use crate::service::{
    conversion_status, option_word, order_type_word, rejection_status, requested, Code, StatusV,
};
use crate::table::{holds, slot, stored, value_at};
use crate::text::{debug_text, int_text};
use crate::weather::first_anchored;
use vstd::prelude::*;

verus! {

/// What is not there is said not to be found; what has ended is said to have;
/// every other refusal is told by its own name.
pub proof fn refusals_are_told_by_name(e: SubmitError)
    ensures
        rejection_status(e).message == match e {
            SubmitError::UnknownGridpool => "unknown gridpool"@,
            SubmitError::OrderNotFound => "order not found"@,
            SubmitError::OrderAlreadyTerminal => "order already terminal"@,
            SubmitError::UnknownArea => "validation: "@ + "UnknownArea"@,
            SubmitError::AreaNotAllowedForGridpool => "validation: "@
                + "AreaNotAllowedForGridpool"@,
            SubmitError::UnsupportedDurationForMarket => "validation: "@
                + "UnsupportedDurationForMarket"@,
            SubmitError::UnalignedDeliveryPeriod => "validation: "@ + "UnalignedDeliveryPeriod"@,
            SubmitError::GateClosed => "validation: "@ + "GateClosed"@,
            SubmitError::SuspendedMarket => "validation: "@ + "SuspendedMarket"@,
            SubmitError::PriceOffGrid => "validation: "@ + "PriceOffGrid"@,
            SubmitError::NonPositivePrice => "validation: "@ + "NonPositivePrice"@,
            SubmitError::QuantityOffGrid => "validation: "@ + "QuantityOffGrid"@,
            SubmitError::NonPositiveQuantity => "validation: "@ + "NonPositiveQuantity"@,
            SubmitError::CurrencyMismatch => "validation: "@ + "CurrencyMismatch"@,
            SubmitError::UnsupportedOrderType(t) => "validation: "@ + joined(
                seq!["UnsupportedOrderType("@, order_type_word(t), ")"@],
            ),
            SubmitError::UnsupportedExecutionOption(o) => "validation: "@ + joined(
                seq!["UnsupportedExecutionOption("@, option_word(o), ")"@],
            ),
            SubmitError::ModifyQuantityBelowFilled => "validation: "@
                + "ModifyQuantityBelowFilled"@,
            SubmitError::SelfTradeRejected => "validation: "@ + "SelfTradeRejected"@,
            SubmitError::UnspecifiedSide => "validation: "@ + "UnspecifiedSide"@,
            SubmitError::ValidityElapsed => "validation: "@ + "ValidityElapsed"@,
        },
{
}

/// A message that does not read is an invalid argument, and is told what does
/// not read: the field that is missing, the value that is not known, the
/// number that is none, or the instant.
pub proof fn unreadable_messages_are_told_why(
    field: Seq<char>,
    value: i32,
    text: Seq<char>,
)
    ensures
        conversion_status(ConvErrorV::MissingField(field)) == (StatusV {
            code: Code::InvalidArgument,
            message: "proto conversion: "@ + ("missing required field: "@ + field),
        }),
        conversion_status(ConvErrorV::UnknownEnum { field, value }) == (StatusV {
            code: Code::InvalidArgument,
            message: "proto conversion: "@ + ("unknown enum value "@ + int_text(value as int)
                + " for "@ + field),
        }),
        conversion_status(ConvErrorV::InvalidDecimal(text)) == (StatusV {
            code: Code::InvalidArgument,
            message: "proto conversion: "@ + ("invalid decimal: "@ + debug_text(text)),
        }),
        conversion_status(ConvErrorV::InvalidTimestamp) == (StatusV {
            code: Code::InvalidArgument,
            message: "proto conversion: "@ + "invalid timestamp"@,
        }),
        requested(None) == Err::<OrderV, StatusV>(
            StatusV { code: Code::InvalidArgument, message: "missing order"@ },
        ),
{
}

/// What a client asks to change is sent as it was written, prices in euros;
/// what it does not mention is not sent, and what is no number is not either.
pub proof fn changes_are_sent_as_written(price: Option<Seq<char>>, qty: Option<Seq<char>>)
    ensures
        updating(price, qty) is Ok <==> (price is Some ==> decimal_value(price->0) is Some) && (
        qty is Some ==> decimal_value(qty->0) is Some),
        updating(price, qty) matches Ok(sent) ==> {
            &&& sent.0 is Some <==> price is Some
            &&& sent.1 is Some <==> qty is Some
            &&& price is Some ==> sent.0->0.amount == price && sent.0->0.currency == 3
            &&& qty is Some ==> sent.1->0.mw == qty
        },
{
}

proof fn lemma_reversed_rises(q: Seq<EntryV>)
    requires
        sorted(Side::Buy, q),
        ids_distinct(q),
    ensures
        ({
            let r = levels_reversed(q);
            &&& r.len() == q.len()
            &&& forall|i: int, j: int|
                0 <= i < j < r.len() ==> (#[trigger] r[i]).price <= (#[trigger] r[j]).price
        }),
    decreases q.len(),
{
    let r = levels_reversed(q);
    lemma_reversed(Side::Buy, q);
    if q.len() > 0 {
        lemma_last_level(Side::Buy, q);
        let k = last_level(q);
        let front = q.take(k);
        let back = q.skip(k);
        assert forall|i: int, j: int| 0 <= i < j < front.len() implies !better(
            Side::Buy,
            (#[trigger] front[j]).price,
            (#[trigger] front[i]).price,
        ) by {
            assert(!better(Side::Buy, q[j].price, q[i].price));
        }
        lemma_reversed_rises(front);
        lemma_reversed(Side::Buy, front);
        let rest = levels_reversed(front);
        assert(r == back + rest);
        assert forall|i: int, j: int| 0 <= i < j < r.len() implies (#[trigger] r[i]).price <= (
        #[trigger] r[j]).price by {
            let b = back.len() as int;
            if i < b {
                assert(r[i] == q[k + i]);
                if j < b {
                    assert(r[j] == q[k + j]);
                } else {
                    assert(r[j] == rest[j - b]);
                    assert(rest.contains(rest[j - b]));
                    assert(front.contains(rest[j - b]));
                    let n = choose|n: int| 0 <= n < front.len() && front[n] == rest[j - b];
                    assert(!better(Side::Buy, q[k + i].price, q[n].price));
                }
            } else {
                assert(r[i] == rest[i - b] && r[j] == rest[j - b]);
            }
        }
    }
}

/// A book is listed by rising price: its bids from the lowest up, then its asks
/// from the lowest up.
pub proof fn listings_rise(b: BookV, i: int, j: int)
    requires
        book_wf(b),
        0 <= i < j < book_listing(b).len(),
    ensures
        ({
            let list = book_listing(b);
            &&& list.len() == b.bids.len() + b.asks.len()
            &&& (i < b.bids.len() <==> list[i].0 == Side::Buy)
            &&& (i >= b.bids.len() <==> list[i].0 == Side::Sell)
            &&& list[i].0 == list[j].0 ==> list[i].1.price <= list[j].1.price
        }),
{
    lemma_reversed_rises(b.bids);
    lemma_reversed(Side::Buy, b.bids);
    let n = b.bids.len() as int;
    if i >= n {
        assert(!better(Side::Sell, b.asks[j - n].price, b.asks[i - n].price));
    }
}

proof fn lemma_first_anchored(areas: Seq<(Seq<char>, usize)>, slot: usize, from: int)
    requires
        0 <= from <= areas.len(),
    ensures
        match first_anchored(areas, slot, from) {
            Some(area) => exists|i: int|
                from <= i < areas.len() && #[trigger] areas[i] == (area, slot) && forall|j: int|
                    from <= j < i ==> (#[trigger] areas[j]).1 != slot,
            None => forall|j: int| from <= j < areas.len() ==> (#[trigger] areas[j]).1 != slot,
        },
    decreases areas.len() - from,
{
    if from < areas.len() {
        lemma_first_anchored(areas, slot, from + 1);
        if areas[from].1 == slot {
            assert(areas[from] == (areas[from].0, slot));
        } else if first_anchored(areas, slot, from + 1) is Some {
            let area = first_anchored(areas, slot, from + 1)->0;
            let i = choose|i: int|
                from + 1 <= i < areas.len() && #[trigger] areas[i] == (area, slot) && forall|j: int|
                    from + 1 <= j < i ==> (#[trigger] areas[j]).1 != slot;
            assert(areas[i] == (area, slot));
        }
    }
}

/// The area of a location is the first that is linked to it, if any is.
pub proof fn locations_have_their_first_area(areas: Seq<(Seq<char>, usize)>, slot: usize)
    ensures
        first_anchored(areas, slot, 0) is None <==> forall|j: int|
            0 <= j < areas.len() ==> (#[trigger] areas[j]).1 != slot,
        first_anchored(areas, slot, 0) matches Some(area) ==> exists|i: int|
            0 <= i < areas.len() && #[trigger] areas[i] == (area, slot) && forall|j: int|
                0 <= j < i ==> (#[trigger] areas[j]).1 != slot,
{
    lemma_first_anchored(areas, slot, 0);
}

proof fn lemma_directions_prefix(
    a: Seq<(AreaV, Seq<(AreaV, CouplingV)>)>,
    b: Seq<(AreaV, Seq<(AreaV, CouplingV)>)>,
    n: nat,
)
    requires
        n <= a.len(),
        n <= b.len(),
        forall|i: int| 0 <= i < n ==> (#[trigger] a[i]).1.len() == b[i].1.len(),
    ensures
        directions(a, n) == directions(b, n),
    decreases n,
{
    if n > 0 {
        lemma_directions_prefix(a, b, (n - 1) as nat);
        assert(a[n - 1].1.len() == b[n - 1].1.len());
    }
}

proof fn lemma_directions_update(
    a: Seq<(AreaV, Seq<(AreaV, CouplingV)>)>,
    i: int,
    row: (AreaV, Seq<(AreaV, CouplingV)>),
    n: nat,
)
    requires
        0 <= i < n <= a.len(),
    ensures
        directions(a.update(i, row), n) == directions(a, n) - a[i].1.len() + row.1.len(),
    decreases n,
{
    let m = (n - 1) as nat;
    if i == m {
        lemma_directions_prefix(a, a.update(i, row), m);
    } else {
        lemma_directions_update(a, i, row, m);
    }
}

/// One direction of a coupling counts once, however often it is set.
proof fn lemma_half_counts(
    couplings: Seq<(AreaV, Seq<(AreaV, CouplingV)>)>,
    a: AreaV,
    b: AreaV,
    c: CouplingV,
)
    requires
        rows_distinct(couplings),
    ensures
        ({
            let after = half_coupled(couplings, a, b, c);
            directions(after, after.len()) == directions(couplings, couplings.len()) + if edge(
                couplings,
                a,
                b,
            ) is Some {
                0int
            } else {
                1
            }
        }),
{
    let row = if holds(couplings, a) {
        value_at(couplings, a)
    } else {
        Seq::empty()
    };
    let after = half_coupled(couplings, a, b, c);
    if holds(couplings, a) {
        let i = slot(couplings, a);
        assert(couplings[i] == (a, row));
        lemma_directions_update(couplings, i, (a, stored(row, b, c)), couplings.len());
    } else {
        lemma_directions_prefix(couplings, after, couplings.len());
        assert(after[couplings.len() as int] == (a, stored(row, b, c)));
    }
}

/// Coupling two areas adds two directions to the count, one each way, unless
/// they are coupled already or are one area.
pub proof fn couplings_count_both_ways(
    couplings: Seq<(AreaV, Seq<(AreaV, CouplingV)>)>,
    a: AreaV,
    b: AreaV,
    c: CouplingV,
)
    requires
        rows_distinct(couplings),
        symmetric(couplings),
    ensures
        ({
            let after = couplings_with(couplings, a, b, c);
            directions(after, after.len()) == directions(couplings, couplings.len()) + if a == b
                || edge(couplings, a, b) is Some {
                0int
            } else {
                2
            }
        }),
        directions(Seq::empty(), 0) == 0,
{
    if a != b {
        let half = half_coupled(couplings, a, b, c);
        lemma_half_coupled(couplings, a, b, c);
        lemma_half_counts(couplings, a, b, c);
        lemma_half_counts(half, b, a, c);
        assert(edge(half, b, a) == edge(couplings, b, a));
        assert(edge(couplings, a, b) == edge(couplings, b, a));
    }
}

} // verus!
