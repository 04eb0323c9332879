//! Scanners and queries: lookups that move left to right through ordered
//! lists of encoded values.
use crate::encoder::after_seeing_value;
use crate::encoder::distinct;
use crate::encoder::encoded;
use crate::encoder::lemma_after_seeing_distinct;
use crate::encoder::Encoder;
use crate::name::lemma_precedes_transitive;
use crate::name::lemma_precedes_trichotomy;
use crate::name::precedes;
use crate::name::precedes_or_same;
use crate::name::Name;
use crate::name::Placement;
use crate::props::ascending;
use crate::props::first_not_before;
use crate::props::lemma_first_not_before;
use crate::props::lemma_lookup_at;
use crate::props::lemma_lookup_gap;
use crate::props::lookup;
use crate::props::Props;
use crate::value::ValueView;
use vstd::prelude::*;

verus! {

/// What a scanner finds at a place: the value there if the name there is
/// `variable`.
pub open spec fn found_at(items: Seq<(Seq<u8>, u32)>, at: int, variable: Seq<u8>) -> Option<u32> {
    if 0 <= at < items.len() && items[at].0 == variable {
        Some(items[at].1)
    } else {
        None
    }
}

/// Every entry before the cursor comes before `variable`: a scan for
/// `variable` from the cursor misses nothing.
pub open spec fn ready_for(items: Seq<(Seq<u8>, u32)>, cursor: int, variable: Seq<u8>) -> bool {
    forall|i: int| 0 <= i < cursor && i < items.len() ==> precedes(#[trigger] items[i].0, variable)
}

/// On an ascending list, a scan that has passed only names before the
/// variable finds what the list holds for the variable, and is then ready
/// for every variable that does not come before this one.
pub proof fn lemma_scan_finds(
    items: Seq<(Seq<u8>, u32)>,
    cursor: int,
    variable: Seq<u8>,
    later: Seq<u8>,
)
    requires
        ascending(items),
        0 <= cursor <= items.len(),
        ready_for(items, cursor, variable),
        precedes_or_same(variable, later),
    ensures
        found_at(items, first_not_before(items, cursor, variable), variable) == lookup(
            items,
            variable,
        ),
        ready_for(items, first_not_before(items, cursor, variable), later),
        ready_for(items, cursor, later),
{
    let at = first_not_before(items, cursor, variable);
    lemma_first_not_before(items, cursor, variable);
    assert forall|i: int| 0 <= i < at implies precedes(#[trigger] items[i].0, variable) by {
        if i < cursor {
        } else {
        }
    }
    if at < items.len() && items[at].0 == variable {
        lemma_lookup_at(items, at);
    } else {
        if at < items.len() {
            lemma_precedes_trichotomy(items[at].0, variable);
        }
        lemma_lookup_gap(items, variable, at);
    }
    assert forall|i: int| 0 <= i < at implies precedes(#[trigger] items[i].0, later) by {
        if variable != later {
            lemma_precedes_transitive(items[i].0, variable, later);
        }
    }
}

/// A cursor over an ordered list of names with their encoded values.
#[derive(Debug)]
pub struct Scanner {
    items: Vec<(Name, u32)>,
    cursor: usize,
}

impl Scanner {
    /// The list that the scanner moves through.
    pub closed spec fn items(&self) -> Seq<(Seq<u8>, u32)> {
        Seq::new(self.items@.len(), |i: int| (self.items@[i].0@, self.items@[i].1))
    }

    /// The place that the scanner has reached.
    pub closed spec fn cursor(&self) -> int {
        self.cursor as int
    }

    /// The cursor lies within the list or at its end.
    pub open spec fn wf(&self) -> bool {
        0 <= self.cursor() <= self.items().len()
    }

    /// A scanner at the start of a list.
    pub fn new(items: Vec<(Name, u32)>) -> (r: Scanner)
        ensures
            r.wf(),
            r.cursor() == 0,
            r.items().len() == items@.len(),
            forall|i: int|
                0 <= i < items@.len() ==> #[trigger] r.items()[i] == (items@[i].0@, items@[i].1),
    {
        Scanner { items, cursor: 0 }
    }

    /// Moves the cursor to the first entry from the cursor on whose name does
    /// not come before `variable`, and gives the value there if the name
    /// there is `variable`.
    pub fn scan_to(&mut self, variable: &Name) -> (r: Option<u32>)
        requires
            old(self).wf(),
        ensures
            final(self).wf(),
            final(self).items() == old(self).items(),
            final(self).cursor() == first_not_before(
                old(self).items(),
                old(self).cursor(),
                variable@,
            ),
            r == found_at(final(self).items(), final(self).cursor(), variable@),
    {
        let ghost items = self.items();
        let ghost start = self.cursor();
        while self.cursor < self.items.len()
            invariant
                self.cursor <= self.items.len(),
                self.items() == items,
                items == old(self).items(),
                start == old(self).cursor(),
                start <= self.cursor(),
                first_not_before(items, start, variable@) == first_not_before(
                    items,
                    self.cursor(),
                    variable@,
                ),
            decreases self.items.len() - self.cursor,
        {
            let here = &self.items[self.cursor];
            match here.0.placement(variable) {
                Placement::Before => {
                    assert(precedes(items[self.cursor()].0, variable@));
                    self.cursor += 1;
                },
                Placement::Same => {
                    proof {
                        lemma_precedes_trichotomy(items[self.cursor()].0, variable@);
                    }
                    return Some(here.1);
                },
                Placement::After => {
                    proof {
                        lemma_precedes_trichotomy(items[self.cursor()].0, variable@);
                    }
                    return None;
                },
            }
        }
        None
    }

    /// Moves the cursor back to the start.
    pub fn reset(&mut self)
        ensures
            final(self).items() == old(self).items(),
            final(self).cursor() == 0,
            final(self).wf(),
    {
        self.cursor = 0;
    }
}

/// What a list of bags gives for a variable from bag `k` on: the value in
/// the first of them that holds the variable.
pub open spec fn hit_from(bags: Seq<Seq<(Seq<u8>, u32)>>, k: int, variable: Seq<u8>) -> Option<u32>
    decreases bags.len() - k,
{
    if k < 0 || k >= bags.len() {
        None
    } else {
        match lookup(bags[k], variable) {
            Some(v) => Some(v),
            None => hit_from(bags, k + 1, variable),
        }
    }
}

/// What a list of bags gives for a variable: the value in the first bag that
/// holds it.
pub open spec fn first_hit(bags: Seq<Seq<(Seq<u8>, u32)>>, variable: Seq<u8>) -> Option<u32> {
    hit_from(bags, 0, variable)
}

/// The cursors and the result after the scanners from `k` on have scanned
/// for a variable in turn, up to and including the first that finds it.
pub open spec fn scan_from(
    bags: Seq<Seq<(Seq<u8>, u32)>>,
    cursors: Seq<int>,
    k: int,
    variable: Seq<u8>,
) -> (Seq<int>, Option<u32>)
    decreases bags.len() - k,
{
    if k < 0 || k >= bags.len() || k >= cursors.len() {
        (cursors, None)
    } else {
        let at = first_not_before(bags[k], cursors[k], variable);
        match found_at(bags[k], at, variable) {
            Some(v) => (cursors.update(k, at), Some(v)),
            None => scan_from(bags, cursors.update(k, at), k + 1, variable),
        }
    }
}

/// Each cursor lies within its bag.
pub open spec fn cursors_within(bags: Seq<Seq<(Seq<u8>, u32)>>, cursors: Seq<int>) -> bool {
    &&& cursors.len() == bags.len()
    &&& forall|k: int| 0 <= k < bags.len() ==> 0 <= #[trigger] cursors[k] <= bags[k].len()
}

/// Every bag is in ascending order of name.
pub open spec fn all_ascending(bags: Seq<Seq<(Seq<u8>, u32)>>) -> bool {
    forall|k: int| 0 <= k < bags.len() ==> ascending(#[trigger] bags[k])
}

/// Every scanner is ready for the variable.
pub open spec fn all_ready(
    bags: Seq<Seq<(Seq<u8>, u32)>>,
    cursors: Seq<int>,
    variable: Seq<u8>,
) -> bool {
    forall|k: int|
        0 <= k < bags.len() && k < cursors.len() ==> ready_for(
            #[trigger] bags[k],
            cursors[k],
            variable,
        )
}

/// Scanning keeps the cursors within their bags. On ascending bags whose
/// scanners are ready for the variable it finds what the first bag that
/// holds the variable gives, and leaves the scanners ready for every
/// variable that does not come before this one.
pub proof fn lemma_scan_from(
    bags: Seq<Seq<(Seq<u8>, u32)>>,
    cursors: Seq<int>,
    k: int,
    variable: Seq<u8>,
    later: Seq<u8>,
)
    requires
        cursors_within(bags, cursors),
        0 <= k <= bags.len(),
    ensures
        cursors_within(bags, scan_from(bags, cursors, k, variable).0),
        all_ascending(bags) && all_ready(bags, cursors, variable) && precedes_or_same(
            variable,
            later,
        ) ==> scan_from(bags, cursors, k, variable).1 == hit_from(bags, k, variable) && all_ready(
            bags,
            scan_from(bags, cursors, k, variable).0,
            later,
        ),
    decreases bags.len() - k,
{
    let good = all_ascending(bags) && all_ready(bags, cursors, variable) && precedes_or_same(
        variable,
        later,
    );
    if good {
        assert forall|j: int| 0 <= j < bags.len() implies ready_for(
            #[trigger] bags[j],
            cursors[j],
            later,
        ) by {
            lemma_scan_finds(bags[j], cursors[j], variable, later);
        }
    }
    if k < bags.len() {
        let at = first_not_before(bags[k], cursors[k], variable);
        lemma_first_not_before(bags[k], cursors[k], variable);
        let moved = cursors.update(k, at);
        assert(cursors_within(bags, moved));
        if good {
            lemma_scan_finds(bags[k], cursors[k], variable, later);
            lemma_scan_finds(bags[k], cursors[k], variable, variable);
            assert forall|j: int| 0 <= j < bags.len() implies ready_for(
                #[trigger] bags[j],
                moved[j],
                variable,
            ) by {
                if j != k {
                    assert(ready_for(bags[j], cursors[j], variable));
                }
            }
            assert forall|j: int| 0 <= j < bags.len() implies ready_for(
                #[trigger] bags[j],
                moved[j],
                later,
            ) by {
                if j != k {
                    assert(ready_for(bags[j], cursors[j], later));
                }
            }
        }
        if found_at(bags[k], at, variable).is_none() {
            lemma_scan_from(bags, moved, k + 1, variable, later);
        }
    }
}

/// Several scanners, one for each bag of a query, asked in turn.
#[derive(Debug)]
pub struct Query {
    scanners: Vec<Scanner>,
}

impl Query {
    /// The bags of the query, each as its list of names and encoded values.
    pub closed spec fn bags(&self) -> Seq<Seq<(Seq<u8>, u32)>> {
        Seq::new(self.scanners@.len(), |k: int| self.scanners@[k].items())
    }

    /// The cursors of the scanners.
    pub closed spec fn cursors(&self) -> Seq<int> {
        Seq::new(self.scanners@.len(), |k: int| self.scanners@[k].cursor())
    }

    /// Each cursor lies within its bag.
    pub open spec fn wf(&self) -> bool {
        cursors_within(self.bags(), self.cursors())
    }

    /// A query over the given scanners.
    pub fn new(scanners: Vec<Scanner>) -> (r: Query)
        requires
            forall|k: int| 0 <= k < scanners@.len() ==> (#[trigger] scanners@[k]).wf(),
        ensures
            r.wf(),
            r.bags().len() == scanners@.len(),
            forall|k: int|
                0 <= k < scanners@.len() ==> #[trigger] r.bags()[k] == scanners@[k].items()
                    && r.cursors()[k] == scanners@[k].cursor(),
    {
        Query { scanners }
    }

    /// Asks the scanners in turn for a variable and gives what the first of
    /// them finds; the scanners after that one are not moved.
    pub fn scan_to(&mut self, variable: &Name) -> (r: Option<u32>)
        requires
            old(self).wf(),
        ensures
            final(self).wf(),
            final(self).bags() == old(self).bags(),
            (final(self).cursors(), r) == scan_from(
                old(self).bags(),
                old(self).cursors(),
                0,
                variable@,
            ),
    {
        let ghost bags = self.bags();
        let mut k: usize = 0;
        while k < self.scanners.len()
            invariant
                k <= self.scanners.len(),
                self.bags() == bags,
                bags == old(self).bags(),
                cursors_within(bags, self.cursors()),
                scan_from(bags, old(self).cursors(), 0, variable@) == scan_from(
                    bags,
                    self.cursors(),
                    k as int,
                    variable@,
                ),
            decreases self.scanners.len() - k,
        {
            let ghost before = self.cursors();
            assert(self.scanners@[k as int].wf()) by {
                assert(self.cursors()[k as int] == self.scanners@[k as int].cursor());
                assert(self.bags()[k as int] == self.scanners@[k as int].items());
            }
            let found = self.scanners[k].scan_to(variable);
            proof {
                let at = first_not_before(bags[k as int], before[k as int], variable@);
                assert(self.cursors() =~= before.update(k as int, at));
                assert(self.bags() =~= bags);
                lemma_first_not_before(bags[k as int], before[k as int], variable@);
            }
            if found.is_some() {
                return found;
            }
            k += 1;
        }
        None
    }

    /// Moves every scanner back to the start.
    pub fn reset(&mut self)
        ensures
            final(self).wf(),
            final(self).bags() == old(self).bags(),
            forall|k: int| 0 <= k < final(self).cursors().len() ==> #[trigger] final(self).cursors()[k] == 0,
            forall|variable: Seq<u8>| all_ready(final(self).bags(), final(self).cursors(), variable),
    {
        let mut k: usize = 0;
        while k < self.scanners.len()
            invariant
                k <= self.scanners.len(),
                self.bags() == old(self).bags(),
                forall|j: int| 0 <= j < k ==> #[trigger] self.cursors()[j] == 0,
            decreases self.scanners.len() - k,
        {
            let ghost before_bags = self.bags();
            let ghost before = self.cursors();
            self.scanners[k].reset();
            proof {
                assert(self.bags() =~= before_bags);
                assert(self.cursors() =~= before.update(k as int, 0));
            }
            k += 1;
        }
    }
}

/// The strings that an encoder has seen after it was shown the values of a
/// list of entries, one after the other.
pub open spec fn after_seeing_entries(
    names: Seq<Seq<u8>>,
    entries: Seq<(Seq<u8>, ValueView)>,
) -> Seq<Seq<u8>>
    decreases entries.len(),
{
    if entries.len() == 0 {
        names
    } else {
        after_seeing_value(after_seeing_entries(names, entries.drop_last()), entries.last().1)
    }
}

/// The strings that an encoder has seen after it was shown the values of
/// several property sets, one set after the other.
pub open spec fn after_seeing_bags(
    names: Seq<Seq<u8>>,
    bags: Seq<Seq<(Seq<u8>, ValueView)>>,
) -> Seq<Seq<u8>>
    decreases bags.len(),
{
    if bags.len() == 0 {
        names
    } else {
        after_seeing_entries(after_seeing_bags(names, bags.drop_last()), bags.last())
    }
}

/// A list of entries with each value replaced by the number that stands for
/// it.
pub open spec fn encoded_entries(
    names: Seq<Seq<u8>>,
    entries: Seq<(Seq<u8>, ValueView)>,
    items: Seq<(Seq<u8>, u32)>,
) -> bool {
    &&& items.len() == entries.len()
    &&& forall|i: int|
        0 <= i < entries.len() ==> (#[trigger] items[i]).0 == entries[i].0 && encoded(
            names,
            entries[i].1,
        ) == Some(items[i].1)
}

/// A value keeps the number that stands for it when the encoder is shown
/// another value.
pub proof fn lemma_encoded_stable(names: Seq<Seq<u8>>, value: ValueView, next: ValueView)
    requires
        distinct(names),
        encoded(names, value).is_some(),
    ensures
        distinct(after_seeing_value(names, next)),
        encoded(after_seeing_value(names, next), value) == encoded(names, value),
{
    match next {
        ValueView::Str(t) => {
            lemma_after_seeing_distinct(names, t);
            match value {
                ValueView::Str(s) => {
                    crate::encoder::lemma_encode_stable(names, s, t);
                },
                _ => {},
            }
        },
        _ => {},
    }
}

/// A value keeps the number that stands for it when the encoder is shown a
/// list of entries.
pub proof fn lemma_encoded_stable_entries(
    names: Seq<Seq<u8>>,
    value: ValueView,
    entries: Seq<(Seq<u8>, ValueView)>,
)
    requires
        distinct(names),
        encoded(names, value).is_some(),
    ensures
        distinct(after_seeing_entries(names, entries)),
        encoded(after_seeing_entries(names, entries), value) == encoded(names, value),
    decreases entries.len(),
{
    if entries.len() > 0 {
        lemma_encoded_stable_entries(names, value, entries.drop_last());
        lemma_encoded_stable(
            after_seeing_entries(names, entries.drop_last()),
            value,
            entries.last().1,
        );
    }
}

/// Showing an encoder a list of entries keeps its list free of repeats.
pub proof fn lemma_after_seeing_entries_distinct(
    names: Seq<Seq<u8>>,
    entries: Seq<(Seq<u8>, ValueView)>,
)
    requires
        distinct(names),
    ensures
        distinct(after_seeing_entries(names, entries)),
{
    lemma_encoded_stable_entries(names, ValueView::Bool(false), entries);
}

/// Encodes the values of a property set, in the order of the set.
pub fn encode_props(props: &Props, encoder: &mut Encoder) -> (r: Vec<(Name, u32)>)
    requires
        old(encoder).wf(),
    ensures
        final(encoder).wf(),
        final(encoder)@ == after_seeing_entries(old(encoder)@, props@),
        encoded_entries(
            final(encoder)@,
            props@,
            Seq::new(r@.len(), |i: int| (r@[i].0@, r@[i].1)),
        ),
{
    let mut out: Vec<(Name, u32)> = Vec::new();
    let mut i: usize = 0;
    assert(props@.subrange(0, 0) =~= Seq::<(Seq<u8>, ValueView)>::empty());
    while i < props.len()
        invariant
            i <= props@.len(),
            encoder.wf(),
            encoder@ == after_seeing_entries(old(encoder)@, props@.subrange(0, i as int)),
            out@.len() == i,
            forall|j: int|
                0 <= j < i ==> (#[trigger] out@[j]).0@ == props@[j].0 && encoded(
                    encoder@,
                    props@[j].1,
                ) == Some(out@[j].1),
        decreases props@.len() - i,
    {
        let ghost names = encoder@;
        proof {
            encoder.lemma_wf_distinct();
        }
        assert(forall|j: int|
            0 <= j < i ==> encoded(names, props@[j].1) == Some((#[trigger] out@[j]).1));
        let value = props.value_at(i);
        let number = encoder.encode(value);
        proof {
            assert(props@.subrange(0, i + 1).drop_last() =~= props@.subrange(0, i as int));
            assert(props@.subrange(0, i + 1).last() == props@[i as int]);
            assert forall|j: int| 0 <= j < i implies encoded(encoder@, props@[j].1) == Some(
                (#[trigger] out@[j]).1,
            ) by {
                assert(encoded(names, props@[j].1) == Some(out@[j].1));
                lemma_encoded_stable(names, props@[j].1, props@[i as int].1);
            }
        }
        out.push((props.name_at(i).duplicate(), number));
        i += 1;
    }
    assert(props@.subrange(0, props@.len() as int) =~= props@);
    out
}

impl Query {
    /// A query over the given property sets, each as a bag of encoded
    /// values; strings that the encoder has not seen get their codes on the
    /// way.
    pub fn build(bags: &Vec<&Props>, encoder: &mut Encoder) -> (r: Query)
        requires
            old(encoder).wf(),
        ensures
            final(encoder).wf(),
            final(encoder)@ == after_seeing_bags(
                old(encoder)@,
                Seq::new(bags@.len(), |k: int| bags@[k]@),
            ),
            r.wf(),
            r.bags().len() == bags@.len(),
            forall|k: int|
                0 <= k < bags@.len() ==> encoded_entries(
                    final(encoder)@,
                    (#[trigger] bags@[k])@,
                    r.bags()[k],
                ),
            forall|k: int| 0 <= k < r.cursors().len() ==> #[trigger] r.cursors()[k] == 0,
    {
        let ghost views = Seq::new(bags@.len(), |k: int| bags@[k]@);
        let mut scanners: Vec<Scanner> = Vec::new();
        let mut k: usize = 0;
        assert(views.subrange(0, 0) =~= Seq::<Seq<(Seq<u8>, ValueView)>>::empty());
        while k < bags.len()
            invariant
                k <= bags@.len(),
                views == Seq::new(bags@.len(), |k: int| bags@[k]@),
                encoder.wf(),
                encoder@ == after_seeing_bags(old(encoder)@, views.subrange(0, k as int)),
                scanners@.len() == k,
                forall|j: int|
                    0 <= j < k ==> (#[trigger] scanners@[j]).wf() && scanners@[j].cursor() == 0
                        && encoded_entries(encoder@, bags@[j]@, scanners@[j].items()),
            decreases bags@.len() - k,
        {
            let ghost names = encoder@;
            proof {
                encoder.lemma_wf_distinct();
            }
            assert(forall|j: int|
                0 <= j < k ==> encoded_entries(names, bags@[j]@, (#[trigger] scanners@[j]).items()));
            let items = encode_props(bags[k], encoder);
            let ghost listed = Seq::new(items@.len(), |i: int| (items@[i].0@, items@[i].1));
            let scanner = Scanner::new(items);
            proof {
                assert(scanner.items() =~= listed);
                assert(views.subrange(0, k + 1).drop_last() =~= views.subrange(0, k as int));
                assert(views.subrange(0, k + 1).last() == bags@[k as int]@);
                assert forall|j: int| 0 <= j < k implies encoded_entries(
                    encoder@,
                    bags@[j]@,
                    (#[trigger] scanners@[j]).items(),
                ) by {
                    let entries = bags@[j]@;
                    let its = scanners@[j].items();
                    assert(encoded_entries(names, entries, its));
                    assert forall|i: int| 0 <= i < entries.len() implies (#[trigger] its[i]).0
                        == entries[i].0 && encoded(encoder@, entries[i].1) == Some(its[i].1) by {
                        assert(encoded(names, entries[i].1) == Some(its[i].1));
                        lemma_encoded_stable_entries(names, entries[i].1, bags@[k as int]@);
                    }
                }
            }
            scanners.push(scanner);
            k += 1;
        }
        assert(views.subrange(0, views.len() as int) =~= views);
        Query::new(scanners)
    }
}

/// Showing an encoder several property sets keeps its list free of repeats.
pub proof fn lemma_bags_distinct(names: Seq<Seq<u8>>, bags: Seq<Seq<(Seq<u8>, ValueView)>>)
    requires
        distinct(names),
    ensures
        distinct(after_seeing_bags(names, bags)),
    decreases bags.len(),
{
    if bags.len() > 0 {
        lemma_bags_distinct(names, bags.drop_last());
        lemma_after_seeing_entries_distinct(after_seeing_bags(names, bags.drop_last()), bags.last());
    }
}

} // verus!
