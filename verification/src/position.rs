//! Positions, and the book that keeps them in key order.

use vstd::prelude::*;

use crate::fixed::{Lots, Micro, Ticks};
use crate::instrument::InstrumentId;
use crate::text::{
    lemma_text_before_total, lemma_text_before_transitive, text_before, text_order, TextOrder,
};

verus! {

/// Whose position in what.
#[derive(PartialEq, Eq, PartialOrd, Ord, Hash, Debug)]
pub struct PositionKey {
    pub account: String,
    pub instrument: InstrumentId,
}

/// The contents of a [`PositionKey`].
#[verifier::ext_equal]
pub struct PositionKeyView {
    pub account: Seq<char>,
    pub instrument: Seq<char>,
}

impl View for PositionKey {
    type V = PositionKeyView;

    open spec fn view(&self) -> PositionKeyView {
        PositionKeyView { account: self.account@, instrument: self.instrument@ }
    }
}

impl Clone for PositionKey {
    fn clone(&self) -> (copy: Self)
        ensures
            copy == *self,
    {
        PositionKey { account: self.account.clone(), instrument: self.instrument.clone() }
    }
}

/// The canonical order of keys: by account, then by instrument.
pub open spec fn key_before(a: PositionKeyView, b: PositionKeyView) -> bool {
    text_before(a.account, b.account) || (a.account == b.account && text_before(
        a.instrument,
        b.instrument,
    ))
}

proof fn lemma_key_before_total(a: PositionKeyView, b: PositionKeyView)
    ensures
        key_before(a, b) ==> !key_before(b, a) && a != b,
        !key_before(a, b) && !key_before(b, a) ==> a == b,
{
    lemma_text_before_total(a.account, b.account);
    lemma_text_before_total(b.account, a.account);
    lemma_text_before_total(a.instrument, b.instrument);
    lemma_text_before_total(b.instrument, a.instrument);
}

proof fn lemma_key_before_transitive(a: PositionKeyView, b: PositionKeyView, c: PositionKeyView)
    requires
        key_before(a, b),
        key_before(b, c),
    ensures
        key_before(a, c),
{
    if text_before(a.account, b.account) && text_before(b.account, c.account) {
        lemma_text_before_transitive(a.account, b.account, c.account);
    } else if a.account == b.account && b.account == c.account {
        lemma_text_before_transitive(a.instrument, b.instrument, c.instrument);
    }
}

/// Where `a` stands to `b` in the canonical order of keys.
fn key_order(a: &PositionKey, b: &PositionKey) -> (order: TextOrder)
    ensures
        (order == TextOrder::Before) == key_before(a@, b@),
        (order == TextOrder::Same) == (a@ == b@),
        (order == TextOrder::After) == key_before(b@, a@),
{
    proof {
        lemma_text_before_total(a.account@, b.account@);
        lemma_text_before_total(a.instrument@, b.instrument@);
    }
    match text_order(a.account.as_str(), b.account.as_str()) {
        TextOrder::Same => text_order(a.instrument.0.as_str(), b.instrument.0.as_str()),
        TextOrder::Before => TextOrder::Before,
        TextOrder::After => TextOrder::After,
    }
}

/// What an account holds of an instrument.
#[derive(Clone, Copy, PartialEq, Eq, Debug)]
pub struct Position {
    /// Lots held, negative when short.
    pub net_qty: Lots,
    /// The average price the open lots were entered at; none when flat.
    pub avg_entry_price: Option<Ticks>,
    /// What the open lots cost.
    pub open_cost: Micro,
    /// The PnL of the lots closed so far.
    pub realized_pnl: Micro,
    /// The fees paid so far.
    pub fees: Micro,
}

/// The position before the first fill.
pub open spec fn flat() -> Position {
    Position {
        net_qty: Lots(0),
        avg_entry_price: None,
        open_cost: Micro(0),
        realized_pnl: Micro(0),
        fees: Micro(0),
    }
}

impl Default for Position {
    fn default() -> (position: Position)
        ensures
            position == flat(),
    {
        Position {
            net_qty: Lots(0),
            avg_entry_price: None,
            open_cost: Micro(0),
            realized_pnl: Micro(0),
            fees: Micro(0),
        }
    }
}

/// What one fill did to one position.
#[derive(PartialEq, Eq, Debug)]
pub struct PositionDelta {
    pub key: PositionKey,
    pub before: Position,
    pub after: Position,
    pub closed_qty: Lots,
    pub opened_qty: Lots,
    pub realized_pnl_delta: Micro,
    pub fee_delta: Micro,
}

/// The contents of a [`PositionDelta`].
#[verifier::ext_equal]
pub struct PositionDeltaView {
    pub key: PositionKeyView,
    pub before: Position,
    pub after: Position,
    pub closed_qty: Lots,
    pub opened_qty: Lots,
    pub realized_pnl_delta: Micro,
    pub fee_delta: Micro,
}

impl View for PositionDelta {
    type V = PositionDeltaView;

    open spec fn view(&self) -> PositionDeltaView {
        PositionDeltaView {
            key: self.key@,
            before: self.before,
            after: self.after,
            closed_qty: self.closed_qty,
            opened_qty: self.opened_qty,
            realized_pnl_delta: self.realized_pnl_delta,
            fee_delta: self.fee_delta,
        }
    }
}

impl Clone for PositionDelta {
    fn clone(&self) -> (copy: Self)
        ensures
            copy == *self,
    {
        PositionDelta {
            key: self.key.clone(),
            before: self.before,
            after: self.after,
            closed_qty: self.closed_qty,
            opened_qty: self.opened_qty,
            realized_pnl_delta: self.realized_pnl_delta,
            fee_delta: self.fee_delta,
        }
    }
}

/// Positions by key.
pub type Positions = Map<PositionKeyView, Position>;

/// Positions by key, in the canonical order of the keys.
#[derive(PartialEq, Eq, Debug)]
pub struct PositionBook {
    entries: Vec<(PositionKey, Position)>,
}

/// Whether entry `i` stands under `key`.
pub open spec fn stands_at(
    entries: Seq<(PositionKey, Position)>,
    key: PositionKeyView,
    i: int,
) -> bool {
    0 <= i < entries.len() && entries[i].0@ == key
}

/// Entries as a map from key to position.
pub open spec fn entry_map(entries: Seq<(PositionKey, Position)>) -> Positions {
    Map::new(
        |key: PositionKeyView| exists|i: int| stands_at(entries, key, i),
        |key: PositionKeyView| entries[choose|i: int| stands_at(entries, key, i)].1,
    )
}

/// Whether the entries are in strict key order.
pub open spec fn in_key_order(entries: Seq<(PositionKey, Position)>) -> bool {
    forall|i: int, j: int|
        0 <= i < j < entries.len() ==> key_before(#[trigger] entries[i].0@, #[trigger] entries[j].0@)
}

proof fn lemma_entry(entries: Seq<(PositionKey, Position)>, i: int)
    requires
        in_key_order(entries),
        0 <= i < entries.len(),
    ensures
        entry_map(entries).contains_key(entries[i].0@),
        entry_map(entries)[entries[i].0@] == entries[i].1,
{
    let key = entries[i].0@;
    assert(stands_at(entries, key, i));
    let j = choose|j: int| stands_at(entries, key, j);
    if j != i {
        lemma_key_before_total(entries[i].0@, entries[j].0@);
    }
}

impl View for PositionBook {
    type V = Positions;

    closed spec fn view(&self) -> Positions {
        entry_map(self.entries@)
    }
}

impl Clone for PositionBook {
    fn clone(&self) -> (copy: Self)
        ensures
            copy@ == self@,
            copy.listing() == self.listing(),
            copy.wf() == self.wf(),
    {
        let mut entries: Vec<(PositionKey, Position)> = Vec::new();
        for i in 0..self.entries.len()
            invariant
                entries@ == self.entries@.take(i as int),
        {
            entries.push((self.entries[i].0.clone(), self.entries[i].1));
            assert(entries@ =~= self.entries@.take(i + 1));
        }
        assert(entries@ =~= self.entries@);
        PositionBook { entries }
    }
}

impl PositionBook {
    /// Whether the entries are in strict key order.
    pub closed spec fn wf(&self) -> bool {
        in_key_order(self.entries@)
    }

    /// The entries in the order in which they are kept.
    pub closed spec fn listing(&self) -> Seq<(PositionKey, Position)> {
        self.entries@
    }

    /// A book without positions.
    pub fn new() -> (book: PositionBook)
        ensures
            book.wf(),
            book@ == Map::<PositionKeyView, Position>::empty(),
    {
        let book = PositionBook { entries: Vec::new() };
        assert(book@ =~= Map::<PositionKeyView, Position>::empty()) by {
            assert forall|key: PositionKeyView| !book@.contains_key(key) by {
                if book@.contains_key(key) {
                    let i = choose|i: int| stands_at(book.entries@, key, i);
                    assert(stands_at(book.entries@, key, i));
                }
            }
        }
        book
    }

    /// The first entry that does not come before `key`, and whether it stands under `key`.
    fn locate(&self, key: &PositionKey) -> (place: (usize, bool))
        requires
            self.wf(),
        ensures
            place.0 <= self.entries.len(),
            forall|i: int| 0 <= i < place.0 ==> key_before(#[trigger] self.entries@[i].0@, key@),
            place.1 ==> stands_at(self.entries@, key@, place.0 as int),
            !place.1 ==> forall|i: int|
                place.0 <= i < self.entries.len() ==> key_before(
                    key@,
                    #[trigger] self.entries@[i].0@,
                ),
    {
        let mut low: usize = 0;
        let mut high: usize = self.entries.len();
        while low < high
            invariant
                self.wf(),
                low <= high <= self.entries.len(),
                forall|i: int| 0 <= i < low ==> key_before(#[trigger] self.entries@[i].0@, key@),
                forall|i: int|
                    high <= i < self.entries.len() ==> key_before(
                        key@,
                        #[trigger] self.entries@[i].0@,
                    ),
            decreases high - low,
        {
            let middle: usize = low + (high - low) / 2;
            match key_order(&self.entries[middle].0, key) {
                TextOrder::Before => {
                    proof {
                        assert forall|i: int| 0 <= i < middle + 1 implies key_before(
                            #[trigger] self.entries@[i].0@,
                            key@,
                        ) by {
                            if i < middle {
                                lemma_key_before_transitive(
                                    self.entries@[i].0@,
                                    self.entries@[middle as int].0@,
                                    key@,
                                );
                            }
                        }
                    }
                    low = middle + 1;
                },
                TextOrder::Same => {
                    return (middle, true);
                },
                TextOrder::After => {
                    proof {
                        assert forall|i: int| middle <= i < self.entries.len() implies key_before(
                            key@,
                            #[trigger] self.entries@[i].0@,
                        ) by {
                            if i > middle {
                                lemma_key_before_transitive(
                                    key@,
                                    self.entries@[middle as int].0@,
                                    self.entries@[i].0@,
                                );
                            }
                        }
                    }
                    high = middle;
                },
            }
        }
        (low, false)
    }

    /// The position under `key`.
    pub fn get(&self, key: &PositionKey) -> (found: Option<&Position>)
        requires
            self.wf(),
        ensures
            match found {
                Some(position) => self@.contains_key(key@) && self@[key@] == *position,
                None => !self@.contains_key(key@),
            },
    {
        let (place, hit) = self.locate(key);
        if hit {
            proof {
                lemma_entry(self.entries@, place as int);
            }
            Some(&self.entries[place].1)
        } else {
            proof {
                if self@.contains_key(key@) {
                    let i = choose|i: int| stands_at(self.entries@, key@, i);
                    assert(stands_at(self.entries@, key@, i));
                    lemma_key_before_total(self.entries@[i].0@, key@);
                    lemma_key_before_total(key@, self.entries@[i].0@);
                }
            }
            None
        }
    }

    /// Puts `position` under `key`, in place of what stood there.
    pub fn insert(&mut self, key: PositionKey, position: Position)
        requires
            old(self).wf(),
        ensures
            final(self).wf(),
            final(self)@ == old(self)@.insert(key@, position),
    {
        let (place, hit) = self.locate(&key);
        let ghost before = self.entries@;
        let ghost wanted = self@.insert(key@, position);
        if hit {
            let _ = self.entries.remove(place);
        }
        let ghost rest = self.entries@;
        self.entries.insert(place, (key, position));
        proof {
            let after = self.entries@;
            let p = place as int;
            let shift = if hit { 1int } else { 0int };
            assert(after.len() == before.len() + 1 - shift);
            assert forall|i: int| 0 <= i < p implies after[i] == before[i] by {}
            assert forall|i: int| p < i < after.len() implies after[i] == before[i - 1 + shift] by {
                if hit {
                    assert(rest[i - 1] == before[i]);
                }
            }
            assert(after[p] == (key, position));
            assert(in_key_order(after)) by {
                assert forall|i: int, j: int| 0 <= i < j < after.len() implies key_before(
                    #[trigger] after[i].0@,
                    #[trigger] after[j].0@,
                ) by {
                    let from = if i < p { i } else { i - 1 + shift };
                    let to = if j < p { j } else { j - 1 + shift };
                    if i == p {
                        assert(after[j] == before[to]);
                        if hit {
                            assert(key_before(before[p].0@, before[to].0@));
                        } else {
                            assert(key_before(key@, before[to].0@));
                        }
                    } else if j == p {
                        assert(after[i] == before[from]);
                        assert(key_before(before[from].0@, key@));
                    } else {
                        assert(after[i] == before[from]);
                        assert(after[j] == before[to]);
                        assert(key_before(before[from].0@, before[to].0@));
                    }
                }
            }
            assert forall|k: PositionKeyView| #[trigger]
                entry_map(after).contains_key(k) == wanted.contains_key(k) && (
            wanted.contains_key(k) ==> entry_map(after)[k] == wanted[k]) by {
                if k == key@ {
                    lemma_entry(after, p);
                } else {
                    if entry_map(before).contains_key(k) {
                        let i = choose|i: int| stands_at(before, k, i);
                        assert(stands_at(before, k, i));
                        lemma_entry(before, i);
                        let moved = if i < p { i } else { i + 1 - shift };
                        assert(i != p || !hit);
                        assert(after[moved] == before[i]);
                        lemma_entry(after, moved);
                    }
                    if entry_map(after).contains_key(k) {
                        let i = choose|i: int| stands_at(after, k, i);
                        assert(stands_at(after, k, i));
                        assert(i != p);
                        let came = if i < p { i } else { i - 1 + shift };
                        assert(after[i] == before[came]);
                        lemma_entry(before, came);
                    }
                }
            }
            assert(entry_map(after) =~= wanted);
        }
    }

    /// How many positions there are.
    pub fn len(&self) -> (count: usize)
        requires
            self.wf(),
        ensures
            count == self@.len(),
            count == self.listing().len(),
    {
        proof {
            lemma_entry_count(self.entries@);
        }
        self.entries.len()
    }

    /// Whether there are no positions.
    pub fn is_empty(&self) -> (empty: bool)
        requires
            self.wf(),
        ensures
            empty == self@.is_empty(),
    {
        proof {
            lemma_entry_count(self.entries@);
            if self.entries.len() == 0 {
                assert(self@ =~= Map::<PositionKeyView, Position>::empty()) by {
                    assert forall|key: PositionKeyView| !self@.contains_key(key) by {
                        if self@.contains_key(key) {
                            let i = choose|i: int| stands_at(self.entries@, key, i);
                            assert(stands_at(self.entries@, key, i));
                        }
                    }
                }
            } else {
                lemma_entry(self.entries@, 0);
            }
        }
        self.entries.is_empty()
    }

    /// The keys with their positions, in the canonical order of the keys.
    pub fn entries(&self) -> (entries: &Vec<(PositionKey, Position)>)
        requires
            self.wf(),
        ensures
            entries@ == self.listing(),
            in_key_order(entries@),
            entry_map(entries@) == self@,
    {
        &self.entries
    }
}

proof fn lemma_entry_count(entries: Seq<(PositionKey, Position)>)
    requires
        in_key_order(entries),
    ensures
        entry_map(entries).len() == entries.len(),
{
    let keys = entries.map_values(|entry: (PositionKey, Position)| entry.0@);
    assert forall|i: int, j: int| 0 <= i < keys.len() && 0 <= j < keys.len() && i != j implies keys[i]
        != keys[j] by {
        if i < j {
            lemma_key_before_total(entries[i].0@, entries[j].0@);
        } else {
            lemma_key_before_total(entries[j].0@, entries[i].0@);
        }
    }
    keys.unique_seq_to_set();
    assert(entry_map(entries).dom() =~= keys.to_set()) by {
        assert forall|key: PositionKeyView| entry_map(entries).dom().contains(key)
            == keys.to_set().contains(key) by {
            if entry_map(entries).dom().contains(key) {
                let i = choose|i: int| stands_at(entries, key, i);
                assert(stands_at(entries, key, i));
                assert(keys[i] == key);
            }
            if keys.to_set().contains(key) {
                let i = choose|i: int| 0 <= i < keys.len() && keys[i] == key;
                assert(stands_at(entries, key, i));
            }
        }
    }
}

/// Keys are in the order of their accounts, and those of one account in the order of their
/// instruments.
pub proof fn law_keys_are_ordered_by_account_first(a: PositionKeyView, b: PositionKeyView)
    ensures
        a.account != b.account ==> key_before(a, b) == text_before(a.account, b.account),
        a.account == b.account ==> key_before(a, b) == text_before(a.instrument, b.instrument),
{
    lemma_text_before_total(a.account, b.account);
    lemma_text_before_total(b.account, a.account);
}

} // verus!
