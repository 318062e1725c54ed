//! The state behind the web page: the area chips, the sparkbars, the trade
//! tape, and the short lines of the header and the chart.

use crate::areas::{all_areas, known_areas, AreaGroup};
use crate::order::view_option;
use crate::render::{join, joined, str_views};
use crate::table::{lemma_views_push, views};
use crate::text::{
    ascending, digits, int_text, push_char, same_text, sorted_distinct, write_int, write_nat,
};
use crate::ui::{GridpoolResp, InfoResp, PublicTradeJson, TradeTextV};
use vstd::prelude::*;

verus! {

// ---------------------------------------------------------------------------
// Sparkbars
// ---------------------------------------------------------------------------

/// The number of bars of a sparkline.
pub const BUCKETS: usize = 12;

/// The prints of one area, oldest bar first.
#[derive(Debug)]
pub struct Spark {
    pub code: &'static str,
    pub bars: Vec<u32>,
}

impl View for Spark {
    type V = (Seq<char>, Seq<u32>);

    open spec fn view(&self) -> (Seq<char>, Seq<u32>) {
        (self.code@, self.bars@)
    }
}

/// A sparkline on which nothing has printed.
pub open spec fn quiet() -> Seq<u32> {
    Seq::new(BUCKETS as nat, |i: int| 0u32)
}

/// The sparklines of the home areas before anything has printed.
pub open spec fn fresh_sparks() -> Seq<(Seq<char>, Seq<u32>)> {
    seq![
        ("10YDE-EON------1"@, quiet()),
        ("10YDE-RWENET---I"@, quiet()),
        ("10YDE-VE-------2"@, quiet()),
        ("10YDE-ENBW-----N"@, quiet()),
    ]
}

/// One more print in the newest bar, as far as it can count.
pub open spec fn bumped(bars: Seq<u32>) -> Seq<u32> {
    let last = bars.len() - 1;
    bars.update(
        last,
        if bars[last] == u32::MAX {
            u32::MAX
        } else {
            (bars[last] + 1) as u32
        },
    )
}

/// The sparklines after a print in an area.
pub open spec fn printed(sparks: Seq<(Seq<char>, Seq<u32>)>, area: Seq<char>) -> Seq<
    (Seq<char>, Seq<u32>),
> {
    Seq::new(
        sparks.len(),
        |i: int|
            if sparks[i].0 == area {
                (sparks[i].0, bumped(sparks[i].1))
            } else {
                sparks[i]
            },
    )
}

/// The sparklines after the oldest bars dropped out and new ones began.
pub open spec fn turned(sparks: Seq<(Seq<char>, Seq<u32>)>) -> Seq<(Seq<char>, Seq<u32>)> {
    Seq::new(sparks.len(), |i: int| (sparks[i].0, sparks[i].1.drop_first().push(0u32)))
}

/// Rolling counts of prints in each home area.
#[derive(Debug)]
pub struct SparkState {
    buckets: Vec<Spark>,
}

impl View for SparkState {
    type V = Seq<(Seq<char>, Seq<u32>)>;

    closed spec fn view(&self) -> Seq<(Seq<char>, Seq<u32>)> {
        views(self.buckets@)
    }
}

fn quiet_spark(code: &'static str) -> (r: Spark)
    ensures
        r@ == (code@, quiet()),
{
    let bars: Vec<u32> = vec![0, 0, 0, 0, 0, 0, 0, 0, 0, 0, 0, 0];
    assert(bars@ =~= quiet());
    Spark { code, bars }
}

impl Default for SparkState {
    fn default() -> (r: Self)
        ensures
            r.wf(),
            r@ == fresh_sparks(),
    {
        let buckets = vec![
            quiet_spark("10YDE-EON------1"),
            quiet_spark("10YDE-RWENET---I"),
            quiet_spark("10YDE-VE-------2"),
            quiet_spark("10YDE-ENBW-----N"),
        ];
        assert(views(buckets@) =~= fresh_sparks());
        SparkState { buckets }
    }
}

impl SparkState {
    /// Every sparkline has all its bars.
    pub open spec fn wf(&self) -> bool {
        forall|i: int| 0 <= i < self@.len() ==> (#[trigger] self@[i]).1.len() == BUCKETS
    }

    /// The sparklines.
    pub fn sparks(&self) -> (r: &Vec<Spark>)
        ensures
            views(r@) == self@,
    {
        &self.buckets
    }

    /// Count a print in an area.
    pub fn record(&mut self, area: &str)
        requires
            old(self).wf(),
        ensures
            final(self).wf(),
            final(self)@ == printed(old(self)@, area@),
    {
        let ghost before = self@;
        let mut i: usize = 0;
        while i < self.buckets.len()
            invariant
                i <= self.buckets@.len(),
                self@.len() == self.buckets@.len(),
                before.len() == self@.len(),
                self.wf(),
                forall|j: int| 0 <= j < i ==> self@[j] == printed(before, area@)[j],
                forall|j: int| i <= j < before.len() ==> self@[j] == before[j],
            decreases self.buckets@.len() - i,
        {
            assert(self@[i as int] == self.buckets@[i as int]@);
            let ghost sofar = self@;
            if same_text(self.buckets[i].code, area) {
                let last: usize = BUCKETS - 1;
                let count = self.buckets[i].bars[last];
                let next: u32 = if count == u32::MAX {
                    u32::MAX
                } else {
                    count + 1
                };
                self.buckets[i].bars.set(last, next);
                assert(self@ =~= sofar.update(i as int, (sofar[i as int].0, bumped(sofar[i as int].1))));
            }
            i += 1;
        }
        assert(self@ =~= printed(before, area@));
    }

    /// Drop the oldest bars and begin new ones.
    pub fn rotate(&mut self)
        requires
            old(self).wf(),
        ensures
            final(self).wf(),
            final(self)@ == turned(old(self)@),
    {
        let ghost before = self@;
        let mut i: usize = 0;
        while i < self.buckets.len()
            invariant
                i <= self.buckets@.len(),
                self@.len() == self.buckets@.len(),
                before.len() == self@.len(),
                self.wf(),
                forall|j: int| 0 <= j < i ==> self@[j] == turned(before)[j],
                forall|j: int| i <= j < before.len() ==> self@[j] == before[j],
            decreases self.buckets@.len() - i,
        {
            assert(self@[i as int] == self.buckets@[i as int]@);
            let ghost sofar = self@;
            let _ = self.buckets[i].bars.remove(0);
            self.buckets[i].bars.push(0);
            assert(self@ =~= sofar.update(
                i as int,
                (sofar[i as int].0, sofar[i as int].1.drop_first().push(0u32)),
            ));
            i += 1;
        }
        assert(self@ =~= turned(before));
    }
}

/// The sparklines after `n` turns without a print.
pub open spec fn turned_often(sparks: Seq<(Seq<char>, Seq<u32>)>, n: nat) -> Seq<
    (Seq<char>, Seq<u32>),
>
    decreases n,
{
    if n == 0 {
        sparks
    } else {
        turned(turned_often(sparks, (n - 1) as nat))
    }
}

proof fn lemma_turned_often(sparks: Seq<(Seq<char>, Seq<u32>)>, n: nat, i: int)
    requires
        0 <= i < sparks.len(),
        sparks[i].1.len() == BUCKETS,
        n <= BUCKETS,
    ensures
        turned_often(sparks, n).len() == sparks.len(),
        turned_often(sparks, n)[i].1.len() == BUCKETS,
        forall|k: int|
            BUCKETS - n <= k < BUCKETS ==> #[trigger] turned_often(sparks, n)[i].1[k] == 0,
    decreases n,
{
    if n > 0 {
        lemma_turned_often(sparks, (n - 1) as nat, i);
        let before = turned_often(sparks, (n - 1) as nat)[i].1;
        let after = turned_often(sparks, n)[i].1;
        assert(after == before.drop_first().push(0u32));
        assert forall|k: int| BUCKETS - n <= k < BUCKETS implies #[trigger] after[k] == 0 by {
            if k < BUCKETS - 1 {
                assert(after[k] == before[k + 1]);
            }
        }
    }
}

/// An area that falls quiet fades: once every bar has turned over without a
/// print, its sparkline is flat.
pub proof fn quiet_areas_fade(sparks: Seq<(Seq<char>, Seq<u32>)>, i: int)
    requires
        0 <= i < sparks.len(),
        sparks[i].1.len() == BUCKETS,
    ensures
        turned_often(sparks, BUCKETS as nat)[i].1 == quiet(),
{
    lemma_turned_often(sparks, BUCKETS as nat, i);
    assert(turned_often(sparks, BUCKETS as nat)[i].1 =~= quiet());
}

// ---------------------------------------------------------------------------
// Area chips
// ---------------------------------------------------------------------------

/// Which areas are shown.
#[derive(Debug)]
pub struct FilterState {
    /// One flag for each area, in the order of the areas.
    active: Vec<bool>,
    show_neighbours: bool,
}

/// The view of a [`FilterState`].
pub ghost struct FilterV {
    pub active: Seq<bool>,
    pub show_neighbours: bool,
}

impl View for FilterState {
    type V = FilterV;

    closed spec fn view(&self) -> FilterV {
        FilterV { active: self.active@, show_neighbours: self.show_neighbours }
    }
}

/// The home areas are shown, the neighbours are not.
pub open spec fn home_only() -> FilterV {
    FilterV {
        active: Seq::new(
            known_areas().len(),
            |i: int| known_areas()[i].group == AreaGroup::Home,
        ),
        show_neighbours: false,
    }
}

/// The area of this code is shown.
pub open spec fn shown(f: FilterV, code: Seq<char>) -> bool {
    exists|i: int|
        0 <= i < known_areas().len() && (#[trigger] known_areas()[i]).code == code && f.active[i]
}

/// The chips after the one of an area was clicked.
pub open spec fn flipped(f: FilterV, code: Seq<char>) -> FilterV {
    FilterV {
        active: Seq::new(
            f.active.len(),
            |i: int| f.active[i] != (known_areas()[i].code == code),
        ),
        ..f
    }
}

/// The chips after the neighbours were clicked: all of them come or go.
pub open spec fn neighbours_flipped(f: FilterV) -> FilterV {
    FilterV {
        active: Seq::new(
            f.active.len(),
            |i: int|
                if known_areas()[i].group == AreaGroup::Neighbour {
                    !f.show_neighbours
                } else {
                    f.active[i]
                },
        ),
        show_neighbours: !f.show_neighbours,
    }
}

/// The parts of a text between commas.
pub open spec fn tokens(text: Seq<char>) -> Seq<Seq<char>>
    decreases text.len(),
{
    if text.len() == 0 {
        seq![Seq::<char>::empty()]
    } else {
        let before = tokens(text.drop_last());
        if text.last() == ',' {
            before.push(Seq::empty())
        } else {
            before.update(before.len() - 1, before.last().push(text.last()))
        }
    }
}

proof fn lemma_tokens_some(text: Seq<char>)
    ensures
        tokens(text).len() > 0,
    decreases text.len(),
{
    if text.len() > 0 {
        lemma_tokens_some(text.drop_last());
    }
}

/// The chips that a saved text stands for: the areas it lists. A code that no
/// area has is passed over.
pub open spec fn restored(active: Option<Seq<char>>, neighbours: Option<Seq<char>>) -> FilterV {
    FilterV {
        active: match active {
            Some(text) => Seq::new(
                known_areas().len(),
                |i: int| tokens(text).contains(known_areas()[i].code),
            ),
            None => home_only().active,
        },
        show_neighbours: match neighbours {
            Some(text) => text == "true"@,
            None => false,
        },
    }
}

/// The codes of the first `n` areas that are shown, with commas between.
pub open spec fn saved(f: FilterV, n: nat) -> Seq<char>
    decreases n,
{
    if n == 0 {
        Seq::empty()
    } else {
        let before = saved(f, (n - 1) as nat);
        let code = known_areas()[n - 1].code;
        if !f.active[n - 1] {
            before
        } else if before.len() == 0 {
            code
        } else {
            before + seq![','] + code
        }
    }
}

/// Take a text apart at its commas.
fn split_commas(text: &str) -> (r: Vec<String>)
    ensures
        views(r@) == tokens(text@),
{
    let mut out: Vec<String> = Vec::new();
    let mut word = String::new();
    let n = text.unicode_len();
    let mut i: usize = 0;
    assert(text@.take(0) =~= Seq::<char>::empty());
    assert(views(out@).push(word@) =~= seq![Seq::<char>::empty()]);
    while i < n
        invariant
            i <= n,
            n == text@.len(),
            views(out@).push(word@) == tokens(text@.take(i as int)),
        decreases n - i,
    {
        let c = text.get_char(i);
        let ghost before = tokens(text@.take(i as int));
        proof {
            assert(text@.take(i + 1).drop_last() =~= text@.take(i as int));
            assert(text@.take(i + 1).last() == c);
        }
        if c == ',' {
            let ghost was = out@;
            let ghost w = word@;
            proof {
                lemma_views_push(out@, word);
            }
            out.push(word);
            word = String::new();
            assert(views(out@).push(word@) =~= before.push(Seq::empty()));
        } else {
            let ghost w = word@;
            push_char(&mut word, c);
            assert(before.last() == w);
            assert(views(out@).push(word@) =~= before.update(before.len() - 1, w.push(c)));
        }
        i += 1;
    }
    assert(text@.take(i as int) =~= text@);
    proof {
        lemma_views_push(out@, word);
    }
    out.push(word);
    out
}

impl FilterState {
    /// There is a flag for each area.
    pub open spec fn wf(&self) -> bool {
        self@.active.len() == known_areas().len()
    }

    /// Whether the neighbours' chips are offered.
    pub fn neighbours_shown(&self) -> (r: bool)
        ensures
            r == self@.show_neighbours,
    {
        self.show_neighbours
    }

    /// Whether an area is shown.
    pub fn is_active(&self, code: &str) -> (r: bool)
        requires
            self.wf(),
        ensures
            r == shown(self@, code@),
    {
        let areas = all_areas();
        let mut i: usize = 0;
        while i < areas.len()
            invariant
                i <= areas@.len(),
                views(areas@) == known_areas(),
                self.wf(),
                forall|j: int|
                    0 <= j < i ==> !((#[trigger] known_areas()[j]).code == code@
                        && self@.active[j]),
            decreases areas@.len() - i,
        {
            assert(known_areas()[i as int] == areas@[i as int]@);
            if same_text(areas[i].code, code) && self.active[i] {
                return true;
            }
            i += 1;
        }
        false
    }

    /// Click the chip of an area.
    pub fn toggle(&mut self, code: &str)
        requires
            old(self).wf(),
        ensures
            final(self).wf(),
            final(self)@ == flipped(old(self)@, code@),
    {
        let ghost before = self@;
        let areas = all_areas();
        let mut i: usize = 0;
        while i < areas.len()
            invariant
                i <= areas@.len(),
                views(areas@) == known_areas(),
                self.wf(),
                before.active.len() == known_areas().len(),
                self@.show_neighbours == before.show_neighbours,
                forall|j: int| 0 <= j < i ==> self@.active[j] == flipped(before, code@).active[j],
                forall|j: int|
                    i <= j < before.active.len() ==> self@.active[j] == before.active[j],
            decreases areas@.len() - i,
        {
            assert(known_areas()[i as int] == areas@[i as int]@);
            if same_text(areas[i].code, code) {
                let was = self.active[i];
                self.active.set(i, !was);
            }
            i += 1;
        }
        assert(self@.active =~= flipped(before, code@).active);
    }

    /// Click the neighbours' chip: all of them come or go together.
    pub fn toggle_neighbours(&mut self)
        requires
            old(self).wf(),
        ensures
            final(self).wf(),
            final(self)@ == neighbours_flipped(old(self)@),
    {
        let ghost before = self@;
        let now = !self.show_neighbours;
        self.show_neighbours = now;
        let areas = all_areas();
        let mut i: usize = 0;
        while i < areas.len()
            invariant
                i <= areas@.len(),
                views(areas@) == known_areas(),
                self.wf(),
                now == !before.show_neighbours,
                before.active.len() == known_areas().len(),
                self@.show_neighbours == now,
                forall|j: int|
                    0 <= j < i ==> self@.active[j] == neighbours_flipped(before).active[j],
                forall|j: int|
                    i <= j < before.active.len() ==> self@.active[j] == before.active[j],
            decreases areas@.len() - i,
        {
            assert(known_areas()[i as int] == areas@[i as int]@);
            match areas[i].group {
                AreaGroup::Neighbour => {
                    self.active.set(i, now);
                },
                AreaGroup::Home => {},
            }
            i += 1;
        }
        assert(self@.active =~= neighbours_flipped(before).active);
    }

    /// The chips that saved texts stand for; what was not saved is as at
    /// first.
    pub fn restore(active: Option<&str>, neighbours: Option<&str>) -> (r: Self)
        ensures
            r.wf(),
            r@ == restored(
                match active {
                    Some(t) => Some(t@),
                    None => None,
                },
                match neighbours {
                    Some(t) => Some(t@),
                    None => None,
                },
            ),
    {
        let areas = all_areas();
        let ghost want = restored(
            match active {
                Some(t) => Some(t@),
                None => None,
            },
            None,
        );
        let mut flags: Vec<bool> = Vec::new();
        let words = match active {
            Some(text) => split_commas(text),
            None => Vec::new(),
        };
        let listed = active.is_some();
        let mut i: usize = 0;
        while i < areas.len()
            invariant
                i <= areas@.len(),
                views(areas@) == known_areas(),
                flags@.len() == i,
                listed == active is Some,
                active matches Some(t) ==> views(words@) == tokens(t@),
                want == restored(
                    match active {
                        Some(t) => Some(t@),
                        None => None,
                    },
                    None,
                ),
                forall|j: int| 0 <= j < i ==> #[trigger] flags@[j] == want.active[j],
            decreases areas@.len() - i,
        {
            assert(known_areas()[i as int] == areas@[i as int]@);
            let on = if listed {
                has_text(&words, areas[i].code)
            } else {
                match areas[i].group {
                    AreaGroup::Home => true,
                    AreaGroup::Neighbour => false,
                }
            };
            flags.push(on);
            i += 1;
        }
        assert(flags@ =~= want.active);
        let show_neighbours = match neighbours {
            Some(text) => same_text(text, "true"),
            None => false,
        };
        FilterState { active: flags, show_neighbours }
    }

    /// The texts to save: the codes that are shown, and whether the
    /// neighbours are offered.
    pub fn save(&self) -> (r: (String, &'static str))
        requires
            self.wf(),
        ensures
            r.0@ == saved(self@, known_areas().len()),
            r.1@ == if self@.show_neighbours {
                "true"@
            } else {
                "false"@
            },
    {
        let areas = all_areas();
        let mut out = String::new();
        let mut begun = false;
        let mut i: usize = 0;
        assert(out@ =~= saved(self@, 0));
        while i < areas.len()
            invariant
                i <= areas@.len(),
                views(areas@) == known_areas(),
                self.wf(),
                out@ == saved(self@, i as nat),
                begun == (out@.len() > 0),
            decreases areas@.len() - i,
        {
            assert(known_areas()[i as int] == areas@[i as int]@);
            if self.active[i] {
                let ghost was = out@;
                if begun {
                    proof {
                        reveal_strlit(",");
                        assert(","@ =~= seq![',']);
                    }
                    out.append(",");
                }
                out.append(areas[i].code);
                proof {
                    lemma_codes_plain(i as int);
                    if was.len() == 0 {
                        assert(out@ =~= known_areas()[i as int].code);
                    }
                }
                begun = true;
            }
            i += 1;
        }
        let neighbours = if self.show_neighbours {
            "true"
        } else {
            "false"
        };
        (out, neighbours)
    }
}

impl Default for FilterState {
    fn default() -> (r: Self)
        ensures
            r.wf(),
            r@ == home_only(),
    {
        FilterState::restore(None, None)
    }
}

/// Whether a text is on a list.
pub fn has_text(list: &Vec<String>, text: &str) -> (r: bool)
    ensures
        r == views(list@).contains(text@),
{
    let ghost all = views(list@);
    let mut i: usize = 0;
    while i < list.len()
        invariant
            i <= list@.len(),
            all == views(list@),
            forall|j: int| 0 <= j < i ==> #[trigger] all[j] != text@,
        decreases list@.len() - i,
    {
        if same_text(list[i].as_str(), text) {
            assert(all[i as int] == text@);
            return true;
        }
        i += 1;
    }
    false
}

/// There is no comma in a text, and something is.
pub open spec fn plain(text: Seq<char>) -> bool {
    text.len() > 0 && forall|i: int| 0 <= i < text.len() ==> #[trigger] text[i] != ','
}

/// The codes of the areas hold no comma.
proof fn lemma_codes_plain(i: int)
    requires
        0 <= i < known_areas().len(),
    ensures
        plain(known_areas()[i].code),
{
    reveal_strlit("10YDE-EON------1");
    reveal_strlit("10YDE-RWENET---I");
    reveal_strlit("10YDE-VE-------2");
    reveal_strlit("10YDE-ENBW-----N");
    reveal_strlit("10YFR-RTE------C");
    reveal_strlit("10YNL----------L");
    reveal_strlit("10YBE----------2");
    reveal_strlit("10YAT-APG------L");
}

proof fn lemma_plain_token(text: Seq<char>)
    requires
        forall|i: int| 0 <= i < text.len() ==> #[trigger] text[i] != ',',
    ensures
        tokens(text) == seq![text],
    decreases text.len(),
{
    if text.len() > 0 {
        let front = text.drop_last();
        assert forall|i: int| 0 <= i < front.len() implies #[trigger] front[i] != ',' by {
            assert(front[i] == text[i]);
        }
        lemma_plain_token(front);
        assert(text.last() == text[text.len() - 1]);
        assert(front.push(text.last()) =~= text);
        assert(tokens(text) =~= seq![text]);
    } else {
        assert(text =~= Seq::<char>::empty());
    }
}

proof fn lemma_tokens_join(a: Seq<char>, b: Seq<char>)
    ensures
        tokens(a + seq![','] + b) == tokens(a) + tokens(b),
    decreases b.len(),
{
    let all = a + seq![','] + b;
    lemma_tokens_some(a);
    if b.len() == 0 {
        assert(all.drop_last() =~= a);
        assert(b =~= Seq::<char>::empty());
        assert(tokens(all) =~= tokens(a) + tokens(b));
    } else {
        let front = b.drop_last();
        lemma_tokens_join(a, front);
        lemma_tokens_some(front);
        assert(all.drop_last() =~= a + seq![','] + front);
        assert(all.last() == b.last());
        let before = tokens(a) + tokens(front);
        if b.last() == ',' {
            assert(tokens(all) =~= tokens(a) + tokens(b));
        } else {
            assert(before.last() == tokens(front).last());
            assert(tokens(all) =~= tokens(a) + tokens(b));
        }
    }
}

/// The codes of the first `n` areas that are shown.
spec fn shown_codes(f: FilterV, n: nat) -> Seq<Seq<char>>
    decreases n,
{
    if n == 0 {
        Seq::empty()
    } else if f.active[n - 1] {
        shown_codes(f, (n - 1) as nat).push(known_areas()[n - 1].code)
    } else {
        shown_codes(f, (n - 1) as nat)
    }
}

proof fn lemma_saved_tokens(f: FilterV, n: nat)
    requires
        n <= known_areas().len(),
    ensures
        (saved(f, n).len() == 0) == (shown_codes(f, n).len() == 0),
        saved(f, n).len() > 0 ==> tokens(saved(f, n)) == shown_codes(f, n),
    decreases n,
{
    if n > 0 {
        let m = (n - 1) as nat;
        lemma_saved_tokens(f, m);
        let before = saved(f, m);
        let code = known_areas()[m as int].code;
        lemma_codes_plain(m as int);
        if f.active[m as int] {
            lemma_plain_token(code);
            if before.len() > 0 {
                lemma_tokens_join(before, code);
            }
            assert(shown_codes(f, n) =~= if before.len() == 0 {
                seq![code]
            } else {
                tokens(before) + seq![code]
            });
        }
    }
}

proof fn lemma_shown_contains(f: FilterV, n: nat, i: int)
    requires
        n <= known_areas().len(),
        0 <= i < known_areas().len(),
    ensures
        shown_codes(f, n).contains(known_areas()[i].code) <==> i < n && f.active[i],
    decreases n,
{
    if n > 0 {
        let m = (n - 1) as nat;
        lemma_shown_contains(f, m, i);
        let before = shown_codes(f, m);
        let code = known_areas()[m as int].code;
        let want = known_areas()[i].code;
        if i != m {
            lemma_codes_differ(i, m as int);
        }
        let after = shown_codes(f, n);
        if before.contains(want) {
            let k = choose|k: int| 0 <= k < before.len() && before[k] == want;
            assert(after[k] == want);
        }
        if f.active[m as int] {
            assert(after[before.len() as int] == code);
            if after.contains(want) {
                let k = choose|k: int| 0 <= k < after.len() && after[k] == want;
                if k < before.len() {
                    assert(before[k] == want);
                }
            }
        }
    }
}

proof fn lemma_codes_differ(i: int, j: int)
    requires
        0 <= i < known_areas().len(),
        0 <= j < known_areas().len(),
        i != j,
    ensures
        known_areas()[i].code != known_areas()[j].code,
{
    reveal_strlit("10YDE-EON------1");
    reveal_strlit("10YDE-RWENET---I");
    reveal_strlit("10YDE-VE-------2");
    reveal_strlit("10YDE-ENBW-----N");
    reveal_strlit("10YFR-RTE------C");
    reveal_strlit("10YNL----------L");
    reveal_strlit("10YBE----------2");
    reveal_strlit("10YAT-APG------L");
    let a = known_areas()[i].code;
    let b = known_areas()[j].code;
    assert(a[3] != b[3] || a[4] != b[4] || a[6] != b[6] || a[7] != b[7]);
}

/// What is chosen survives a reload: the chips that were saved are the chips
/// that are restored.
pub proof fn choices_survive_a_reload(f: FilterV)
    requires
        f.active.len() == known_areas().len(),
    ensures
        restored(
            Some(saved(f, known_areas().len())),
            Some(
                if f.show_neighbours {
                    "true"@
                } else {
                    "false"@
                },
            ),
        ) == f,
{
    let n = known_areas().len();
    let text = saved(f, n);
    let back = restored(
        Some(text),
        Some(
            if f.show_neighbours {
                "true"@
            } else {
                "false"@
            },
        ),
    );
    reveal_strlit("true");
    reveal_strlit("false");
    assert("true"@ != "false"@) by {
        assert("true"@.len() == 4 && "false"@.len() == 5);
    }
    lemma_saved_tokens(f, n);
    assert forall|i: int| 0 <= i < n implies back.active[i] == f.active[i] by {
        lemma_shown_contains(f, n, i);
        lemma_codes_plain(i);
        if text.len() == 0 {
            assert(text =~= Seq::<char>::empty());
            assert(tokens(text) =~= seq![Seq::<char>::empty()]);
            assert(tokens(text)[0].len() == 0);
        }
    }
    assert(back.active =~= f.active);
}

/// Clicking a chip twice leaves everything as it was.
pub proof fn two_clicks_change_nothing(f: FilterV, code: Seq<char>)
    requires
        f.active.len() == known_areas().len(),
    ensures
        flipped(flipped(f, code), code) == f,
{
    assert(flipped(flipped(f, code), code).active =~= f.active);
}

// ---------------------------------------------------------------------------
// The trade tape
// ---------------------------------------------------------------------------

/// The number of prints that are kept.
pub const TRADES_BUFFER_CAP: usize = 500;

/// The number of prints that are shown.
pub const TRADES_DISPLAY_CAP: usize = 10;

/// The tape after one more print, newest first, as long as it may be.
pub open spec fn taped<T>(tape: Seq<T>, t: T) -> Seq<T> {
    let longer = seq![t] + tape;
    if longer.len() > TRADES_BUFFER_CAP {
        longer.take(TRADES_BUFFER_CAP as int)
    } else {
        longer
    }
}

/// A period that is asked for, if one is, is the trade's.
pub open spec fn on_period(wanted: Option<Seq<char>>, period: Seq<char>) -> bool {
    wanted matches Some(p) ==> p == period
}

/// The trade is shown: on the periods asked for, in an area that is.
pub open spec fn on_show(
    t: TradeTextV,
    f: FilterV,
    pinned: Option<Seq<char>>,
    focused: Option<Seq<char>>,
) -> bool {
    &&& on_period(pinned, t.period)
    &&& on_period(focused, t.period)
    &&& shown(f, t.buy_area) || shown(f, t.sell_area)
}

/// Which of the trades, from the `i`-th on, are shown, `room` of them at
/// most.
pub open spec fn rows(
    tape: Seq<TradeTextV>,
    f: FilterV,
    pinned: Option<Seq<char>>,
    focused: Option<Seq<char>>,
    i: int,
    room: nat,
) -> Seq<int>
    decreases tape.len() - i,
{
    if !(0 <= i < tape.len()) || room == 0 {
        Seq::empty()
    } else if on_show(tape[i], f, pinned, focused) {
        seq![i] + rows(tape, f, pinned, focused, i + 1, (room - 1) as nat)
    } else {
        rows(tape, f, pinned, focused, i + 1, room)
    }
}

/// The recent prints, newest first.
#[derive(Debug)]
pub struct TradeTape {
    trades: Vec<PublicTradeJson>,
}

impl View for TradeTape {
    type V = Seq<TradeTextV>;

    closed spec fn view(&self) -> Seq<TradeTextV> {
        views(self.trades@)
    }
}

/// The view of an optional text.
pub open spec fn text_view(text: Option<&str>) -> Option<Seq<char>> {
    match text {
        Some(t) => Some(t@),
        None => None,
    }
}

/// Whether a period is the one asked for, if one is.
fn fits_period(wanted: Option<&str>, period: &str) -> (r: bool)
    ensures
        r == on_period(text_view(wanted), period@),
{
    match wanted {
        Some(p) => same_text(p, period),
        None => true,
    }
}

impl TradeTape {
    /// The tape is no longer than it may be.
    pub open spec fn wf(&self) -> bool {
        self@.len() <= TRADES_BUFFER_CAP
    }

    /// An empty tape.
    pub fn new() -> (r: Self)
        ensures
            r.wf(),
            r@ == Seq::<TradeTextV>::empty(),
    {
        let r = TradeTape { trades: Vec::new() };
        assert(r@ =~= Seq::<TradeTextV>::empty());
        r
    }

    /// The prints, newest first.
    pub fn trades(&self) -> (r: &Vec<PublicTradeJson>)
        ensures
            views(r@) == self@,
    {
        &self.trades
    }

    /// A print came in.
    pub fn push(&mut self, t: PublicTradeJson)
        requires
            old(self).wf(),
        ensures
            final(self).wf(),
            final(self)@ == taped(old(self)@, t@),
    {
        let ghost before = self@;
        let ghost print = t@;
        self.trades.insert(0, t);
        assert(self@ =~= seq![print] + before);
        if self.trades.len() > TRADES_BUFFER_CAP {
            self.trades.truncate(TRADES_BUFFER_CAP);
            assert(self@ =~= (seq![print] + before).take(TRADES_BUFFER_CAP as int));
        }
    }

    /// Which prints are shown: of the areas that are active, and of the
    /// pinned and the focused delivery where there is one.
    pub fn visible(&self, filter: &FilterState, pinned: Option<&str>, focused: Option<&str>) -> (r:
        Vec<usize>)
        requires
            filter.wf(),
        ensures
            ({
                let want = rows(
                    self@,
                    filter@,
                    text_view(pinned),
                    text_view(focused),
                    0,
                    TRADES_DISPLAY_CAP as nat,
                );
                &&& r@.len() == want.len()
                &&& forall|k: int| 0 <= k < r@.len() ==> #[trigger] r@[k] == want[k]
            }),
    {
        let ghost p = text_view(pinned);
        let ghost q = text_view(focused);
        let ghost want = rows(self@, filter@, p, q, 0, TRADES_DISPLAY_CAP as nat);
        let mut out: Vec<usize> = Vec::new();
        let mut i: usize = 0;
        assert(as_ints(out@) =~= Seq::<int>::empty());
        assert(as_ints(out@) + want =~= want);
        while i < self.trades.len() && out.len() < TRADES_DISPLAY_CAP
            invariant
                filter.wf(),
                i <= self.trades@.len(),
                self@.len() == self.trades@.len(),
                out@.len() <= TRADES_DISPLAY_CAP,
                p == text_view(pinned),
                q == text_view(focused),
                want == as_ints(out@) + rows(
                    self@,
                    filter@,
                    p,
                    q,
                    i as int,
                    (TRADES_DISPLAY_CAP - out@.len()) as nat,
                ),
            decreases self.trades@.len() - i,
        {
            let t = &self.trades[i];
            assert(self@[i as int] == t@);
            let ghost before = as_ints(out@);
            if fits_period(pinned, t.period.as_str()) && fits_period(focused, t.period.as_str())
                && (filter.is_active(t.buy_area.as_str()) || filter.is_active(
                t.sell_area.as_str(),
            )) {
                out.push(i);
                proof {
                    assert(as_ints(out@) =~= before.push(i as int));
                    let rest = rows(
                        self@,
                        filter@,
                        p,
                        q,
                        i + 1,
                        (TRADES_DISPLAY_CAP - out@.len()) as nat,
                    );
                    assert(before + (seq![i as int] + rest) =~= before.push(i as int) + rest);
                }
            }
            i += 1;
        }
        assert(want =~= as_ints(out@));
        out
    }

    /// Whether a delivery still has a print on the tape.
    pub fn has_period(&self, period: &str) -> (r: bool)
        ensures
            r == exists|i: int| 0 <= i < self@.len() && (#[trigger] self@[i]).period == period@,
    {
        let mut i: usize = 0;
        while i < self.trades.len()
            invariant
                i <= self.trades@.len(),
                self@.len() == self.trades@.len(),
                forall|j: int| 0 <= j < i ==> (#[trigger] self@[j]).period != period@,
            decreases self.trades@.len() - i,
        {
            assert(self@[i as int] == self.trades@[i as int]@);
            if same_text(self.trades[i].period.as_str(), period) {
                return true;
            }
            i += 1;
        }
        false
    }

    /// The deliveries with a print on the tape, in order, each once.
    pub fn periods(&self) -> (r: Vec<String>)
        ensures
            ascending(views(r@)),
            forall|x: Seq<char>| #[trigger]
                views(r@).contains(x) <==> exists|i: int|
                    0 <= i < self@.len() && (#[trigger] self@[i]).period == x,
    {
        let mut all: Vec<String> = Vec::new();
        let mut i: usize = 0;
        while i < self.trades.len()
            invariant
                i <= self.trades@.len(),
                self@.len() == self.trades@.len(),
                all@.len() == i,
                forall|j: int| 0 <= j < i ==> (#[trigger] all@[j])@ == self@[j].period,
            decreases self.trades@.len() - i,
        {
            assert(self@[i as int] == self.trades@[i as int]@);
            all.push(self.trades[i].period.clone());
            i += 1;
        }
        let r = sorted_distinct(&all);
        proof {
            let list = views(all@);
            assert forall|x: Seq<char>| #[trigger] views(r@).contains(x) <==> exists|i: int|
                0 <= i < self@.len() && (#[trigger] self@[i]).period == x by {
                assert(views(r@).contains(x) <==> list.contains(x));
                if list.contains(x) {
                    let k = choose|k: int| 0 <= k < list.len() && list[k] == x;
                    assert(all@[k]@ == self@[k].period);
                }
                if exists|i: int| 0 <= i < self@.len() && (#[trigger] self@[i]).period == x {
                    let k = choose|i: int|
                        0 <= i < self@.len() && (#[trigger] self@[i]).period == x;
                    assert(all@[k]@ == self@[k].period);
                    assert(list[k] == x);
                }
            }
        }
        r
    }
}

/// The numbers of a list.
pub open spec fn as_ints(list: Seq<usize>) -> Seq<int> {
    Seq::new(list.len(), |i: int| list[i] as int)
}

/// What the tape says when it shows nothing.
pub fn empty_tape_text(pinned: bool, focused: bool) -> (r: &'static str)
    ensures
        r@ == if pinned || focused {
            "no prints for this delivery"@
        } else {
            "no prints for the active areas"@
        },
{
    if pinned || focused {
        "no prints for this delivery"
    } else {
        "no prints for the active areas"
    }
}

/// The delivery in focus after a row was clicked: the row's, or none where it
/// was in focus already.
pub fn toggle_focus(focused: Option<&str>, row: &str) -> (r: Option<String>)
    ensures
        view_option(r) == if text_view(focused) == Some(row@) {
            None::<Seq<char>>
        } else {
            Some(row@)
        },
{
    match focused {
        Some(p) => if same_text(p, row) {
            None
        } else {
            Some(row.to_owned())
        },
        None => Some(row.to_owned()),
    }
}

/// The delivery that a choice in a list stands for; none for all of them.
pub fn chosen_period(choice: &str) -> (r: Option<String>)
    ensures
        view_option(r) == if choice@.len() == 0 || choice@ == "all"@ {
            None::<Seq<char>>
        } else {
            Some(choice@)
        },
{
    if choice.unicode_len() == 0 || same_text(choice, "all") {
        None
    } else {
        Some(choice.to_owned())
    }
}

// ---------------------------------------------------------------------------
// Lines
// ---------------------------------------------------------------------------

/// How far back a mark of the chart lies.
pub open spec fn back_text(mins: int) -> Seq<char> {
    if mins == 0 {
        "now"@
    } else if mins < 60 {
        joined(seq!["-"@, int_text(mins), "m"@])
    } else if mins % 60 == 0 {
        joined(seq!["-"@, int_text(mins / 60), "h"@])
    } else {
        joined(seq!["-"@, int_text(mins / 60), "h"@, int_text(mins % 60), "m"@])
    }
}

/// How far back a mark of the chart lies, as in `-2h30m`.
pub fn format_back(mins: i64) -> (r: String)
    ensures
        r@ == back_text(mins as int),
{
    if mins == 0 {
        return "now".to_owned();
    }
    if mins < 60 {
        let m = write_int(mins);
        let parts: Vec<&str> = vec!["-", m.as_str(), "m"];
        assert(str_views(parts@) =~= seq!["-"@, int_text(mins as int), "m"@]);
        return join(&parts);
    }
    let h = write_int(mins / 60);
    let m = write_int(mins % 60);
    if mins % 60 == 0 {
        let parts: Vec<&str> = vec!["-", h.as_str(), "h"];
        assert(str_views(parts@) =~= seq!["-"@, int_text(mins as int / 60), "h"@]);
        join(&parts)
    } else {
        let parts: Vec<&str> = vec!["-", h.as_str(), "h", m.as_str(), "m"];
        assert(str_views(parts@) =~= seq![
            "-"@,
            int_text(mins as int / 60),
            "h"@,
            int_text(mins as int % 60),
            "m"@,
        ]);
        join(&parts)
    }
}

/// The distance between two marks of the chart, in minutes: the first of a
/// few round ones that leaves no more than eight of them, else the window
/// itself.
pub open spec fn step_for(window: int) -> int {
    if window <= 8 {
        1
    } else if window <= 16 {
        2
    } else if window <= 40 {
        5
    } else if window <= 80 {
        10
    } else if window <= 120 {
        15
    } else if window <= 240 {
        30
    } else if window <= 480 {
        60
    } else if window <= 960 {
        120
    } else {
        window
    }
}

/// The distance between two marks of the chart, in minutes.
pub fn pick_x_step(window: u32) -> (r: u32)
    ensures
        r == step_for(window as int),
        window <= 8 * r,
{
    if window <= 8 {
        1
    } else if window <= 16 {
        2
    } else if window <= 40 {
        5
    } else if window <= 80 {
        10
    } else if window <= 120 {
        15
    } else if window <= 240 {
        30
    } else if window <= 480 {
        60
    } else if window <= 960 {
        120
    } else {
        window
    }
}

/// The line of the header that says how large the simulation is.
pub open spec fn info_text(version: Seq<char>, gridpools: nat, markets: nat, couplings: nat) -> Seq<
    char,
> {
    joined(
        seq![
            "v"@,
            version,
            " · "@,
            digits(gridpools),
            " gridpool"@,
            if gridpools == 1 {
                ""@
            } else {
                "s"@
            },
            " · "@,
            digits(markets),
            " markets · "@,
            digits(couplings),
            " couplings"@,
        ],
    )
}

/// The line of the header that says how large the simulation is.
pub fn info_line(i: &InfoResp) -> (r: String)
    ensures
        r@ == info_text(
            i.version@,
            i.gridpools as nat,
            i.markets as nat,
            i.couplings as nat,
        ),
{
    let gridpools = write_nat(i.gridpools as u64);
    let markets = write_nat(i.markets as u64);
    let couplings = write_nat(i.couplings as u64);
    let plural = if i.gridpools == 1 {
        ""
    } else {
        "s"
    };
    let parts: Vec<&str> = vec![
        "v",
        i.version.as_str(),
        " · ",
        gridpools.as_str(),
        " gridpool",
        plural,
        " · ",
        markets.as_str(),
        " markets · ",
        couplings.as_str(),
        " couplings",
    ];
    assert(str_views(parts@) =~= seq![
        "v"@,
        i.version@,
        " · "@,
        digits(i.gridpools as nat),
        " gridpool"@,
        plural@,
        " · "@,
        digits(i.markets as nat),
        " markets · "@,
        digits(i.couplings as nat),
        " couplings"@,
    ]);
    join(&parts)
}

/// The line of the header that names the zone, where it is not UTC.
pub fn tz_line(tz: &str) -> (r: String)
    ensures
        r@ == if tz@ == "UTC"@ {
            ""@
        } else {
            "tz: "@ + tz@
        },
{
    if same_text(tz, "UTC") {
        "".to_owned()
    } else {
        let mut out = "tz: ".to_owned();
        out.append(tz);
        out
    }
}

/// The line of the header that counts the prints and shows the last.
pub open spec fn trades_text(count: nat, last: Option<TradeTextV>) -> Seq<char> {
    match last {
        Some(t) => joined(
            seq!["trades: "@, digits(count), " (last #"@, digits(t.id as nat), " @ "@, t.price, ")"@],
        ),
        None => "trades: "@ + digits(count),
    }
}

/// The line of the header that counts the prints and shows the last.
pub fn trades_line(count: usize, tape: &TradeTape) -> (r: String)
    ensures
        r@ == trades_text(
            count as nat,
            if tape@.len() > 0 {
                Some(tape@[0])
            } else {
                None
            },
        ),
{
    let n = write_nat(count as u64);
    let trades = tape.trades();
    if trades.len() > 0 {
        let t = &trades[0];
        assert(tape@[0] == t@);
        let id = write_nat(t.id);
        let parts: Vec<&str> = vec![
            "trades: ",
            n.as_str(),
            " (last #",
            id.as_str(),
            " @ ",
            t.price.as_str(),
            ")",
        ];
        assert(str_views(parts@) =~= seq![
            "trades: "@,
            digits(count as nat),
            " (last #"@,
            digits(t.id as nat),
            " @ "@,
            t.price@,
            ")"@,
        ]);
        join(&parts)
    } else {
        let mut out = "trades: ".to_owned();
        out.append(n.as_str());
        out
    }
}

/// The gridpool that is opened at first: the one with the most trades, the
/// last of them among equals.
pub fn busiest(pools: &Vec<GridpoolResp>) -> (r: Option<usize>)
    ensures
        r is None <==> pools@.len() == 0,
        r matches Some(i) ==> {
            &&& i < pools@.len()
            &&& forall|j: int| 0 <= j < pools@.len() ==> (#[trigger] pools@[j]).trades
                <= pools@[i as int].trades
            &&& forall|j: int| i < j < pools@.len() ==> (#[trigger] pools@[j]).trades
                < pools@[i as int].trades
        },
{
    if pools.len() == 0 {
        return None;
    }
    let mut best: usize = 0;
    let mut i: usize = 1;
    while i < pools.len()
        invariant
            1 <= i <= pools@.len(),
            best < i,
            forall|j: int| 0 <= j < i ==> (#[trigger] pools@[j]).trades <= pools@[best as int].trades,
            forall|j: int| best < j < i ==> (#[trigger] pools@[j]).trades
                < pools@[best as int].trades,
        decreases pools@.len() - i,
    {
        if pools[best].trades <= pools[i].trades {
            best = i;
        }
        i += 1;
    }
    Some(best)
}

/// Where a stage lies of the one that is current.
#[derive(Clone, Copy, Debug, PartialEq, Eq, Structural)]
pub enum StageMark {
    Done,
    Current,
    Ahead,
}

/// Where the `i`-th stage lies.
pub fn stage_mark(i: usize, current: usize) -> (r: StageMark)
    ensures
        r == if i == current {
            StageMark::Current
        } else if i < current {
            StageMark::Done
        } else {
            StageMark::Ahead
        },
{
    if i == current {
        StageMark::Current
    } else if i < current {
        StageMark::Done
    } else {
        StageMark::Ahead
    }
}

} // verus!
