//! The delivery areas a screen knows about, and short names for what is shown
//! on it.

use crate::table::views;
use crate::text::same_text;
use vstd::prelude::*;

verus! {

/// Whether an area belongs to the home market or is a neighbour's.
#[derive(Clone, Copy, Debug, PartialEq, Eq, Structural)]
pub enum AreaGroup {
    Home,
    Neighbour,
}

/// One area: its code, a short tag for badges, and its group.
#[derive(Clone, Copy, Debug)]
pub struct AreaSpec {
    pub code: &'static str,
    pub tag: &'static str,
    pub group: AreaGroup,
}

/// The view of an [`AreaSpec`].
pub ghost struct AreaSpecV {
    pub code: Seq<char>,
    pub tag: Seq<char>,
    pub group: AreaGroup,
}

impl View for AreaSpec {
    type V = AreaSpecV;

    open spec fn view(&self) -> AreaSpecV {
        AreaSpecV { code: self.code@, tag: self.tag@, group: self.group }
    }
}

/// All areas, home zones first.
pub open spec fn known_areas() -> Seq<AreaSpecV> {
    seq![
        home("10YDE-EON------1"@, "TN"@),
        home("10YDE-RWENET---I"@, "AM"@),
        home("10YDE-VE-------2"@, "HZ"@),
        home("10YDE-ENBW-----N"@, "BW"@),
        neighbour("10YFR-RTE------C"@, "FR"@),
        neighbour("10YNL----------L"@, "NL"@),
        neighbour("10YBE----------2"@, "BE"@),
        neighbour("10YAT-APG------L"@, "AT"@),
    ]
}

/// An area of the home market.
pub open spec fn home(code: Seq<char>, tag: Seq<char>) -> AreaSpecV {
    AreaSpecV { code, tag, group: AreaGroup::Home }
}

/// A neighbour's area.
pub open spec fn neighbour(code: Seq<char>, tag: Seq<char>) -> AreaSpecV {
    AreaSpecV { code, tag, group: AreaGroup::Neighbour }
}

fn home_area(code: &'static str, tag: &'static str) -> (r: AreaSpec)
    ensures
        r@ == home(code@, tag@),
{
    AreaSpec { code, tag, group: AreaGroup::Home }
}

fn neighbour_area(code: &'static str, tag: &'static str) -> (r: AreaSpec)
    ensures
        r@ == neighbour(code@, tag@),
{
    AreaSpec { code, tag, group: AreaGroup::Neighbour }
}

/// All areas the screen knows about, home zones first.
pub fn all_areas() -> (r: Vec<AreaSpec>)
    ensures
        views(r@) == known_areas(),
{
    let r = vec![
        home_area("10YDE-EON------1", "TN"),
        home_area("10YDE-RWENET---I", "AM"),
        home_area("10YDE-VE-------2", "HZ"),
        home_area("10YDE-ENBW-----N", "BW"),
        neighbour_area("10YFR-RTE------C", "FR"),
        neighbour_area("10YNL----------L", "NL"),
        neighbour_area("10YBE----------2", "BE"),
        neighbour_area("10YAT-APG------L", "AT"),
    ];
    assert(views(r@) =~= known_areas());
    r
}

/// The tag of the first of the areas, from the `i`-th on, with this code.
pub open spec fn tag_from(areas: Seq<AreaSpecV>, code: Seq<char>, i: int) -> Seq<char>
    decreases areas.len() - i,
{
    if !(0 <= i < areas.len()) {
        "?"@
    } else if areas[i].code == code {
        areas[i].tag
    } else {
        tag_from(areas, code, i + 1)
    }
}

/// Short tag for an area code: `10YDE-EON------1` is `TN`; a question mark
/// for one that is not known.
pub fn area_tag(code: &str) -> (r: &'static str)
    ensures
        r@ == tag_from(known_areas(), code@, 0),
{
    let areas = all_areas();
    let mut i: usize = 0;
    while i < areas.len()
        invariant
            i <= areas@.len(),
            views(areas@) == known_areas(),
            tag_from(known_areas(), code@, 0) == tag_from(known_areas(), code@, i as int),
        decreases areas@.len() - i,
    {
        assert(known_areas()[i as int] == areas@[i as int]@);
        if same_text(areas[i].code, code) {
            return areas[i].tag;
        }
        i += 1;
    }
    "?"
}

/// The short name of a text in a table of long and short names; the text
/// itself where it is not in the table.
pub open spec fn short_for(table: Seq<(Seq<char>, Seq<char>)>, text: Seq<char>, i: int) -> Seq<char>
    decreases table.len() - i,
{
    if !(0 <= i < table.len()) {
        text
    } else if table[i].0 == text {
        table[i].1
    } else {
        short_for(table, text, i + 1)
    }
}

/// The views of a table of names.
pub open spec fn name_views(table: Seq<(&str, &str)>) -> Seq<(Seq<char>, Seq<char>)> {
    Seq::new(table.len(), |i: int| (table[i].0@, table[i].1@))
}

fn shorten<'a>(table: &Vec<(&'static str, &'static str)>, text: &'a str) -> (r: &'a str)
    ensures
        r@ == short_for(name_views(table@), text@, 0),
{
    let ghost all = name_views(table@);
    let mut i: usize = 0;
    while i < table.len()
        invariant
            i <= table@.len(),
            all == name_views(table@),
            short_for(all, text@, 0) == short_for(all, text@, i as int),
        decreases table@.len() - i,
    {
        let (long, short) = table[i];
        if same_text(long, text) {
            return short;
        }
        i += 1;
    }
    text
}

/// The names of sides.
pub open spec fn side_names() -> Seq<(Seq<char>, Seq<char>)> {
    seq![("MARKET_SIDE_BUY"@, "buy"@), ("MARKET_SIDE_SELL"@, "sell"@)]
}

/// The names of order states.
pub open spec fn order_state_names() -> Seq<(Seq<char>, Seq<char>)> {
    seq![
        ("ORDER_STATE_PENDING"@, "pending"@),
        ("ORDER_STATE_ACTIVE"@, "active"@),
        ("ORDER_STATE_HIBERNATE"@, "hibernate"@),
        ("ORDER_STATE_FILLED"@, "filled"@),
        ("ORDER_STATE_CANCELED"@, "canceled"@),
        ("ORDER_STATE_EXPIRED"@, "expired"@),
        ("ORDER_STATE_FAILED"@, "failed"@),
    ]
}

/// The names of trade states.
pub open spec fn trade_state_names() -> Seq<(Seq<char>, Seq<char>)> {
    seq![
        ("TRADE_STATE_ACTIVE"@, "active"@),
        ("TRADE_STATE_CANCEL_REQUESTED"@, "cancel?"@),
        ("TRADE_STATE_CANCEL_REJECTED"@, "cancel✗"@),
        ("TRADE_STATE_CANCELED"@, "canceled"@),
        ("TRADE_STATE_RECALL_REQUESTED"@, "recall?"@),
        ("TRADE_STATE_RECALL_REJECTED"@, "recall✗"@),
        ("TRADE_STATE_RECALLED"@, "recalled"@),
        ("TRADE_STATE_APPROVAL_REQUESTED"@, "approval?"@),
    ]
}

/// The side for display. A name that is not known is shown as it is.
pub fn short_side(s: &str) -> (r: &str)
    ensures
        r@ == short_for(side_names(), s@, 0),
{
    let table = vec![("MARKET_SIDE_BUY", "buy"), ("MARKET_SIDE_SELL", "sell")];
    assert(name_views(table@) =~= side_names());
    shorten(&table, s)
}

/// The order state for display. A name that is not known is shown as it is.
pub fn short_order_state(s: &str) -> (r: &str)
    ensures
        r@ == short_for(order_state_names(), s@, 0),
{
    let table = vec![
        ("ORDER_STATE_PENDING", "pending"),
        ("ORDER_STATE_ACTIVE", "active"),
        ("ORDER_STATE_HIBERNATE", "hibernate"),
        ("ORDER_STATE_FILLED", "filled"),
        ("ORDER_STATE_CANCELED", "canceled"),
        ("ORDER_STATE_EXPIRED", "expired"),
        ("ORDER_STATE_FAILED", "failed"),
    ];
    assert(name_views(table@) =~= order_state_names());
    shorten(&table, s)
}

/// The trade state for display. A name that is not known is shown as it is.
pub fn short_trade_state(s: &str) -> (r: &str)
    ensures
        r@ == short_for(trade_state_names(), s@, 0),
{
    let table = vec![
        ("TRADE_STATE_ACTIVE", "active"),
        ("TRADE_STATE_CANCEL_REQUESTED", "cancel?"),
        ("TRADE_STATE_CANCEL_REJECTED", "cancel✗"),
        ("TRADE_STATE_CANCELED", "canceled"),
        ("TRADE_STATE_RECALL_REQUESTED", "recall?"),
        ("TRADE_STATE_RECALL_REJECTED", "recall✗"),
        ("TRADE_STATE_RECALLED", "recalled"),
        ("TRADE_STATE_APPROVAL_REQUESTED", "approval?"),
    ];
    assert(name_views(table@) =~= trade_state_names());
    shorten(&table, s)
}

/// A name that is not in the table is shown as it is.
pub proof fn unknown_names_are_kept(table: Seq<(Seq<char>, Seq<char>)>, text: Seq<char>, i: int)
    requires
        0 <= i,
        forall|j: int| 0 <= j < table.len() ==> (#[trigger] table[j]).0 != text,
    ensures
        short_for(table, text, i) == text,
    decreases table.len() - i,
{
    if i < table.len() {
        unknown_names_are_kept(table, text, i + 1);
    }
}

} // verus!
