use vstd::prelude::*;

verus! {

/// A change of one bike's electron count by `delta` electrons. Zones and bike
/// contacts produce these; [`electron_transfer_system`] applies them.
#[derive(Clone, Copy, PartialEq, Eq, Structural, Debug)]
pub struct ElectronTransferEvent {
    pub bike: u64,
    pub delta: i32,
}

/// A reduction zone (boost pad): a bike inside it gains `electron_gain` electrons.
#[derive(Clone, Copy, PartialEq, Eq, Structural, Debug)]
pub struct ReductantPad {
    pub electron_gain: i32,
}

/// An oxidation zone (hazard): a bike inside it loses `electron_loss` electrons.
#[derive(Clone, Copy, PartialEq, Eq, Structural, Debug)]
pub struct OxidantHazard {
    pub electron_loss: i32,
}

/// The zones one bike is inside of during a frame, each list in the order in which
/// the zones are visited.
pub struct ZoneContacts {
    pub bike: u64,
    pub pads: Vec<ReductantPad>,
    pub hazards: Vec<OxidantHazard>,
}

/// Two bikes close enough to trade electrons, and the number of electrons that
/// flows from `bike_a` to `bike_b` this frame (negative when it flows the other way).
#[derive(Clone, Copy, PartialEq, Eq, Structural, Debug)]
pub struct RedoxContact {
    pub bike_a: u64,
    pub bike_b: u64,
    pub flow: i32,
}

/// A bike and its current electron count.
#[derive(Clone, Copy, PartialEq, Eq, Structural, Debug)]
pub struct BikeCharge {
    pub bike: u64,
    pub electrons: i32,
}

/// Applying a batch of transfers would take some bike's electron count out of
/// the range of `i32` at some point.
#[derive(Clone, Copy, PartialEq, Eq, Structural, Debug)]
pub struct ElectronOverflow;

// ---------------------------------------------------------------------------
// Sums over transfers

/// The sum of all deltas of `events`.
pub open spec fn total_delta(events: Seq<ElectronTransferEvent>) -> int
    decreases events.len(),
{
    if events.len() == 0 {
        0
    } else {
        total_delta(events.drop_last()) + events.last().delta
    }
}

/// The sum of the deltas of `events` addressed to `bike`.
pub open spec fn bike_delta(events: Seq<ElectronTransferEvent>, bike: u64) -> int
    decreases events.len(),
{
    if events.len() == 0 {
        0
    } else {
        bike_delta(events.drop_last(), bike) + (if events.last().bike == bike {
            events.last().delta as int
        } else {
            0
        })
    }
}

pub open spec fn fits_i32(x: int) -> bool {
    i32::MIN <= x <= i32::MAX
}

// ---------------------------------------------------------------------------
// Zones

pub open spec fn pad_event(bike: u64, pad: ReductantPad) -> ElectronTransferEvent {
    ElectronTransferEvent { bike, delta: pad.electron_gain }
}

pub open spec fn hazard_event(bike: u64, hazard: OxidantHazard) -> ElectronTransferEvent {
    ElectronTransferEvent { bike, delta: (-hazard.electron_loss) as i32 }
}

/// The transfers one bike receives from the zones it touches: one per pad, then
/// one per hazard.
pub open spec fn zone_events(
    bike: u64,
    pads: Seq<ReductantPad>,
    hazards: Seq<OxidantHazard>,
) -> Seq<ElectronTransferEvent> {
    pads.map_values(|p: ReductantPad| pad_event(bike, p)) + hazards.map_values(
        |h: OxidantHazard| hazard_event(bike, h),
    )
}

/// The transfers of all bikes' zone contacts, bike after bike.
pub open spec fn all_zone_events(contacts: Seq<ZoneContacts>) -> Seq<ElectronTransferEvent>
    decreases contacts.len(),
{
    if contacts.len() == 0 {
        Seq::empty()
    } else {
        let c = contacts.last();
        all_zone_events(contacts.drop_last()) + zone_events(c.bike, c.pads@, c.hazards@)
    }
}

/// No hazard takes away `i32::MIN` electrons (its negation does not exist in `i32`).
pub open spec fn hazards_negatable(contacts: Seq<ZoneContacts>) -> bool {
    forall|i: int, j: int|
        0 <= i < contacts.len() && 0 <= j < contacts[i].hazards@.len()
            ==> #[trigger] contacts[i].hazards@[j].electron_loss != i32::MIN
}

fn zone_events_of(c: &ZoneContacts) -> (events: Vec<ElectronTransferEvent>)
    requires
        forall|j: int| 0 <= j < c.hazards@.len() ==> #[trigger] c.hazards@[j].electron_loss
            != i32::MIN,
    ensures
        events@ == zone_events(c.bike, c.pads@, c.hazards@),
{
    let mut events: Vec<ElectronTransferEvent> = Vec::new();
    let mut i: usize = 0;
    while i < c.pads.len()
        invariant
            i <= c.pads@.len(),
            events@ == c.pads@.take(i as int).map_values(|p: ReductantPad| pad_event(c.bike, p)),
        decreases c.pads@.len() - i,
    {
        events.push(ElectronTransferEvent { bike: c.bike, delta: c.pads[i].electron_gain });
        assert(c.pads@.take(i + 1) =~= c.pads@.take(i as int).push(c.pads@[i as int]));
        i += 1;
    }
    assert(c.pads@.take(i as int) =~= c.pads@);
    let ghost pad_part = events@;
    let mut k: usize = 0;
    while k < c.hazards.len()
        invariant
            k <= c.hazards@.len(),
            forall|j: int| 0 <= j < c.hazards@.len() ==> #[trigger] c.hazards@[j].electron_loss
                != i32::MIN,
            events@ == pad_part + c.hazards@.take(k as int).map_values(
                |h: OxidantHazard| hazard_event(c.bike, h),
            ),
        decreases c.hazards@.len() - k,
    {
        let loss = c.hazards[k].electron_loss;
        events.push(ElectronTransferEvent { bike: c.bike, delta: -loss });
        assert(c.hazards@.take(k + 1) =~= c.hazards@.take(k as int).push(c.hazards@[k as int]));
        k += 1;
    }
    assert(c.hazards@.take(k as int) =~= c.hazards@);
    events
}

/// Electron transfers caused by the track's zones: every bike inside a reduction
/// pad gains that pad's electrons, every bike inside an oxidation hazard loses
/// that hazard's electrons. For each bike in turn, its pads come first, then its
/// hazards.
pub fn zone_detection_system(contacts: &Vec<ZoneContacts>) -> (events: Vec<ElectronTransferEvent>)
    requires
        hazards_negatable(contacts@),
    ensures
        events@ == all_zone_events(contacts@),
        distinct_contact_bikes(contacts@) ==> forall|i: int|
            0 <= i < contacts@.len() ==> #[trigger] bike_delta(events@, contacts@[i].bike)
                == total_gain(contacts@[i].pads@) - total_loss(contacts@[i].hazards@),
{
    let mut events: Vec<ElectronTransferEvent> = Vec::new();
    let mut i: usize = 0;
    while i < contacts.len()
        invariant
            i <= contacts@.len(),
            hazards_negatable(contacts@),
            events@ == all_zone_events(contacts@.take(i as int)),
        decreases contacts@.len() - i,
    {
        let c = &contacts[i];
        assert forall|j: int| 0 <= j < c.hazards@.len() implies #[trigger] c.hazards@[j].electron_loss
            != i32::MIN by {
            assert(contacts@[i as int].hazards@[j].electron_loss != i32::MIN);
        }
        let mut more = zone_events_of(c);
        events.append(&mut more);
        assert(contacts@.take(i + 1).drop_last() =~= contacts@.take(i as int));
        i += 1;
    }
    assert(contacts@.take(i as int) =~= contacts@);
    proof {
        if distinct_contact_bikes(contacts@) {
            assert forall|k: int| 0 <= k < contacts@.len() implies #[trigger] bike_delta(
                events@,
                contacts@[k].bike,
            ) == total_gain(contacts@[k].pads@) - total_loss(contacts@[k].hazards@) by {
                lemma_zone_transfers_per_bike(contacts@, k);
            }
        }
    }
    events
}

/// The electrons a list of pads hands out together.
pub open spec fn total_gain(pads: Seq<ReductantPad>) -> int
    decreases pads.len(),
{
    if pads.len() == 0 {
        0
    } else {
        total_gain(pads.drop_last()) + pads.last().electron_gain
    }
}

/// The electrons a list of hazards takes away together.
pub open spec fn total_loss(hazards: Seq<OxidantHazard>) -> int
    decreases hazards.len(),
{
    if hazards.len() == 0 {
        0
    } else {
        total_loss(hazards.drop_last()) + hazards.last().electron_loss
    }
}

proof fn lemma_bike_delta_append(a: Seq<ElectronTransferEvent>, b: Seq<ElectronTransferEvent>, bike: u64)
    ensures
        bike_delta(a + b, bike) == bike_delta(a, bike) + bike_delta(b, bike),
    decreases b.len(),
{
    if b.len() == 0 {
        assert(a + b =~= a);
    } else {
        assert((a + b).drop_last() =~= a + b.drop_last());
        lemma_bike_delta_append(a, b.drop_last(), bike);
    }
}

proof fn lemma_pad_events_delta(bike: u64, pads: Seq<ReductantPad>)
    ensures
        bike_delta(pads.map_values(|p: ReductantPad| pad_event(bike, p)), bike) == total_gain(pads),
    decreases pads.len(),
{
    if pads.len() > 0 {
        assert(pads.map_values(|p: ReductantPad| pad_event(bike, p)).drop_last() =~= pads.drop_last().map_values(
            |p: ReductantPad| pad_event(bike, p),
        ));
        lemma_pad_events_delta(bike, pads.drop_last());
    }
}

proof fn lemma_hazard_events_delta(bike: u64, hazards: Seq<OxidantHazard>)
    requires
        forall|j: int| 0 <= j < hazards.len() ==> #[trigger] hazards[j].electron_loss != i32::MIN,
    ensures
        bike_delta(hazards.map_values(|h: OxidantHazard| hazard_event(bike, h)), bike) == -total_loss(
            hazards,
        ),
    decreases hazards.len(),
{
    if hazards.len() > 0 {
        let rest = hazards.drop_last();
        assert(hazards.map_values(|h: OxidantHazard| hazard_event(bike, h)).drop_last() =~= rest.map_values(
            |h: OxidantHazard| hazard_event(bike, h),
        ));
        assert forall|j: int| 0 <= j < rest.len() implies #[trigger] rest[j].electron_loss != i32::MIN by {
            assert(rest[j] == hazards[j]);
        }
        lemma_hazard_events_delta(bike, rest);
        assert(hazards[hazards.len() - 1].electron_loss != i32::MIN);
    }
}

/// What the zones do to a bike: it gains the electrons of every pad it is
/// inside and loses those of every hazard it is inside.
pub proof fn lemma_zone_effect(bike: u64, pads: Seq<ReductantPad>, hazards: Seq<OxidantHazard>)
    requires
        forall|j: int| 0 <= j < hazards.len() ==> #[trigger] hazards[j].electron_loss != i32::MIN,
    ensures
        bike_delta(zone_events(bike, pads, hazards), bike) == total_gain(pads) - total_loss(hazards),
{
    lemma_bike_delta_append(
        pads.map_values(|p: ReductantPad| pad_event(bike, p)),
        hazards.map_values(|h: OxidantHazard| hazard_event(bike, h)),
        bike,
    );
    lemma_pad_events_delta(bike, pads);
    lemma_hazard_events_delta(bike, hazards);
}

/// No two zone contacts are for the same bike.
pub open spec fn distinct_contact_bikes(contacts: Seq<ZoneContacts>) -> bool {
    forall|i: int, j: int|
        0 <= i < contacts.len() && 0 <= j < contacts.len() && i != j ==> #[trigger] contacts[i].bike
            != #[trigger] contacts[j].bike
}

proof fn lemma_bike_delta_elsewhere(events: Seq<ElectronTransferEvent>, bike: u64)
    requires
        forall|k: int| 0 <= k < events.len() ==> #[trigger] events[k].bike != bike,
    ensures
        bike_delta(events, bike) == 0,
    decreases events.len(),
{
    if events.len() > 0 {
        let rest = events.drop_last();
        assert forall|k: int| 0 <= k < rest.len() implies #[trigger] rest[k].bike != bike by {
            assert(rest[k] == events[k]);
        }
        lemma_bike_delta_elsewhere(rest, bike);
        assert(events[events.len() - 1].bike != bike);
    }
}

proof fn lemma_zone_events_of_other_bike(
    bike: u64,
    pads: Seq<ReductantPad>,
    hazards: Seq<OxidantHazard>,
    other: u64,
)
    requires
        bike != other,
    ensures
        bike_delta(zone_events(bike, pads, hazards), other) == 0,
{
    let evs = zone_events(bike, pads, hazards);
    let pe = pads.map_values(|p: ReductantPad| pad_event(bike, p));
    let he = hazards.map_values(|h: OxidantHazard| hazard_event(bike, h));
    assert forall|k: int| 0 <= k < evs.len() implies #[trigger] evs[k].bike != other by {
        if k < pe.len() {
            assert(evs[k] == pe[k]);
        } else {
            assert(evs[k] == he[k - pe.len()]);
        }
    }
    lemma_bike_delta_elsewhere(evs, other);
}

proof fn lemma_zone_events_absent(contacts: Seq<ZoneContacts>, bike: u64)
    requires
        forall|i: int| 0 <= i < contacts.len() ==> #[trigger] contacts[i].bike != bike,
    ensures
        bike_delta(all_zone_events(contacts), bike) == 0,
    decreases contacts.len(),
{
    if contacts.len() > 0 {
        let rest = contacts.drop_last();
        let c = contacts.last();
        assert forall|i: int| 0 <= i < rest.len() implies #[trigger] rest[i].bike != bike by {
            assert(rest[i] == contacts[i]);
        }
        lemma_zone_events_absent(rest, bike);
        assert(contacts[contacts.len() - 1].bike != bike);
        lemma_zone_events_of_other_bike(c.bike, c.pads@, c.hazards@, bike);
        lemma_bike_delta_append(all_zone_events(rest), zone_events(c.bike, c.pads@, c.hazards@), bike);
    }
}

/// What the zones do to each bike: where every bike has at most one contact, the
/// transfers addressed to a bike add up to the electrons of all pads it is inside
/// minus those of all hazards it is inside, with or without pads.
pub proof fn lemma_zone_transfers_per_bike(contacts: Seq<ZoneContacts>, i: int)
    requires
        hazards_negatable(contacts),
        distinct_contact_bikes(contacts),
        0 <= i < contacts.len(),
    ensures
        bike_delta(all_zone_events(contacts), contacts[i].bike) == total_gain(contacts[i].pads@)
            - total_loss(contacts[i].hazards@),
    decreases contacts.len(),
{
    let rest = contacts.drop_last();
    let c = contacts.last();
    let n = contacts.len() - 1;
    let x = contacts[i].bike;
    assert(hazards_negatable(rest)) by {
        assert forall|a: int, b: int|
            0 <= a < rest.len() && 0 <= b < rest[a].hazards@.len() implies #[trigger] rest[a].hazards@[b].electron_loss
            != i32::MIN by {
            assert(rest[a] == contacts[a]);
        }
    }
    assert(distinct_contact_bikes(rest)) by {
        assert forall|a: int, b: int|
            0 <= a < rest.len() && 0 <= b < rest.len() && a != b implies #[trigger] rest[a].bike
            != #[trigger] rest[b].bike by {
            assert(rest[a] == contacts[a] && rest[b] == contacts[b]);
        }
    }
    lemma_bike_delta_append(all_zone_events(rest), zone_events(c.bike, c.pads@, c.hazards@), x);
    if i == n {
        assert forall|a: int| 0 <= a < rest.len() implies #[trigger] rest[a].bike != x by {
            assert(rest[a] == contacts[a]);
            assert(contacts[a].bike != contacts[n].bike);
        }
        lemma_zone_events_absent(rest, x);
        assert forall|b: int| 0 <= b < c.hazards@.len() implies #[trigger] c.hazards@[b].electron_loss
            != i32::MIN by {
            assert(contacts[n].hazards@[b].electron_loss != i32::MIN);
        }
        lemma_zone_effect(c.bike, c.pads@, c.hazards@);
    } else {
        assert(rest[i] == contacts[i]);
        lemma_zone_transfers_per_bike(rest, i);
        assert(contacts[n].bike != contacts[i].bike);
        lemma_zone_events_of_other_bike(c.bike, c.pads@, c.hazards@, x);
    }
}

// ---------------------------------------------------------------------------
// Bike against bike

/// The pairs `(i, j)` with `j` running from `i + 1` to `n - 1`.
pub open spec fn pair_row(n: nat, i: nat) -> Seq<(usize, usize)> {
    Seq::new((if i + 1 < n { n - i - 1 } else { 0 }) as nat, |k: int| (i as usize, (i + 1 + k) as usize))
}

/// All pairs `(i, j)` with `i < m` and `i < j < n`, ordered by `i`, then by `j`.
pub open spec fn pairs_below(n: nat, m: nat) -> Seq<(usize, usize)>
    decreases m,
{
    if m == 0 {
        Seq::empty()
    } else {
        pairs_below(n, (m - 1) as nat) + pair_row(n, (m - 1) as nat)
    }
}

/// Every unordered pair of `n` bikes, each once, as a pair of positions `(i, j)`
/// with `i < j`, in the order in which nested loops over the bikes meet them.
pub open spec fn bike_pairs(n: nat) -> Seq<(usize, usize)> {
    pairs_below(n, n)
}

/// The pairs of bikes that may trade electrons: each unordered pair of the `n`
/// bikes once, ordered by the first bike's position, then by the second's.
pub fn bike_redox_pairs(n: usize) -> (pairs: Vec<(usize, usize)>)
    ensures
        pairs@ == bike_pairs(n as nat),
{
    let mut pairs: Vec<(usize, usize)> = Vec::new();
    let mut i: usize = 0;
    while i < n
        invariant
            i <= n,
            pairs@ == pairs_below(n as nat, i as nat),
        decreases n - i,
    {
        let mut j: usize = i + 1;
        let ghost start = pairs@;
        while j < n
            invariant
                i < n,
                i + 1 <= j <= n,
                start == pairs_below(n as nat, i as nat),
                pairs@ == start + pair_row(n as nat, i as nat).take(j - i - 1),
            decreases n - j,
        {
            pairs.push((i, j));
            assert(pair_row(n as nat, i as nat).take(j - i) =~= pair_row(n as nat, i as nat).take(
                j - i - 1,
            ).push((i, j)));
            j += 1;
        }
        assert(pair_row(n as nat, i as nat).take(j - i - 1) =~= pair_row(n as nat, i as nat));
        i += 1;
    }
    pairs
}

proof fn lemma_pairs_below(n: nat, m: nat)
    requires
        m <= n,
        n <= usize::MAX,
    ensures
        forall|k: int|
            0 <= k < pairs_below(n, m).len() ==> {
                let (a, b) = #[trigger] pairs_below(n, m)[k];
                a < m && a < b < n
            },
        forall|a: int, b: int|
            0 <= a < m && a < b < n ==> #[trigger] pairs_below(n, m).contains(
                (a as usize, b as usize),
            ),
        pairs_below(n, m).no_duplicates(),
    decreases m,
{
    if m > 0 {
        let prev = pairs_below(n, (m - 1) as nat);
        let row = pair_row(n, (m - 1) as nat);
        lemma_pairs_below(n, (m - 1) as nat);
        let all = pairs_below(n, m);
        assert(all == prev + row);
        assert forall|k: int| 0 <= k < all.len() implies {
            let (a, b) = #[trigger] all[k];
            a < m && a < b < n
        } by {
            if k >= prev.len() {
                assert(all[k] == row[k - prev.len()]);
            } else {
                assert(all[k] == prev[k]);
            }
        }
        assert forall|a: int, b: int| 0 <= a < m && a < b < n implies #[trigger] all.contains(
            (a as usize, b as usize),
        ) by {
            if a < m - 1 {
                assert(prev.contains((a as usize, b as usize)));
                let k = choose|k: int| 0 <= k < prev.len() && prev[k] == (a as usize, b as usize);
                assert(all[k] == prev[k]);
            } else {
                let k = b - a - 1;
                assert(row[k] == (a as usize, b as usize));
                assert(all[prev.len() + k] == row[k]);
            }
        }
        assert forall|i: int, j: int| 0 <= i < all.len() && 0 <= j < all.len() && i != j implies all[i]
            != all[j] by {
            if i < prev.len() && j < prev.len() {
                assert(all[i] == prev[i] && all[j] == prev[j]);
            } else if i >= prev.len() && j >= prev.len() {
                assert(all[i] == row[i - prev.len()] && all[j] == row[j - prev.len()]);
            } else if i < prev.len() {
                assert(all[i] == prev[i] && all[j] == row[j - prev.len()]);
                assert(prev[i].0 < m - 1);
            } else {
                assert(all[j] == prev[j] && all[i] == row[i - prev.len()]);
                assert(prev[j].0 < m - 1);
            }
        }
    }
}

/// Each unordered pair of bikes is considered exactly once: every listed pair
/// `(i, j)` has `i < j < n`, every such pair is listed, and none twice.
pub proof fn lemma_bike_pairs_each_once(n: nat)
    requires
        n <= usize::MAX,
    ensures
        forall|k: int|
            0 <= k < bike_pairs(n).len() ==> {
                let (i, j) = #[trigger] bike_pairs(n)[k];
                i < j < n
            },
        forall|i: int, j: int|
            0 <= i < j < n ==> #[trigger] bike_pairs(n).contains((i as usize, j as usize)),
        bike_pairs(n).no_duplicates(),
{
    lemma_pairs_below(n, n);
}

/// The electron difference `electrons_a - electrons_b` between two bikes, or
/// `None` where it does not fit in an `i32`.
pub fn potential_difference(electrons_a: i32, electrons_b: i32) -> (diff: Option<i32>)
    ensures
        diff == (if fits_i32(electrons_a - electrons_b) {
            Some((electrons_a - electrons_b) as i32)
        } else {
            None::<i32>
        }),
{
    electrons_a.checked_sub(electrons_b)
}

/// The two transfers of one contact: `flow` electrons leave `bike_a` and reach
/// `bike_b`. A contact with no flow produces nothing.
pub open spec fn contact_events(c: RedoxContact) -> Seq<ElectronTransferEvent> {
    if c.flow == 0 {
        Seq::empty()
    } else {
        seq![
            ElectronTransferEvent { bike: c.bike_a, delta: (-c.flow) as i32 },
            ElectronTransferEvent { bike: c.bike_b, delta: c.flow },
        ]
    }
}

pub open spec fn exchange_events(contacts: Seq<RedoxContact>) -> Seq<ElectronTransferEvent>
    decreases contacts.len(),
{
    if contacts.len() == 0 {
        Seq::empty()
    } else {
        exchange_events(contacts.drop_last()) + contact_events(contacts.last())
    }
}

pub open spec fn flows_negatable(contacts: Seq<RedoxContact>) -> bool {
    forall|i: int| 0 <= i < contacts.len() ==> #[trigger] contacts[i].flow != i32::MIN
}

proof fn lemma_total_delta_append(a: Seq<ElectronTransferEvent>, b: Seq<ElectronTransferEvent>)
    ensures
        total_delta(a + b) == total_delta(a) + total_delta(b),
    decreases b.len(),
{
    if b.len() == 0 {
        assert(a + b =~= a);
    } else {
        assert((a + b).drop_last() =~= a + b.drop_last());
        lemma_total_delta_append(a, b.drop_last());
    }
}

proof fn lemma_exchange_total_zero(contacts: Seq<RedoxContact>)
    requires
        flows_negatable(contacts),
    ensures
        total_delta(exchange_events(contacts)) == 0,
    decreases contacts.len(),
{
    if contacts.len() > 0 {
        let rest = contacts.drop_last();
        assert(flows_negatable(rest)) by {
            assert forall|i: int| 0 <= i < rest.len() implies #[trigger] rest[i].flow != i32::MIN by {
                assert(rest[i] == contacts[i]);
            }
        }
        lemma_exchange_total_zero(rest);
        let c = contacts.last();
        assert(c.flow != i32::MIN) by {
            assert(contacts[contacts.len() - 1].flow != i32::MIN);
        }
        lemma_total_delta_append(exchange_events(rest), contact_events(c));
        let ce = contact_events(c);
        if c.flow != 0 {
            assert(ce.drop_last() =~= seq![ce[0]]);
            assert(seq![ce[0]].drop_last() =~= Seq::<ElectronTransferEvent>::empty());
            assert(total_delta(Seq::<ElectronTransferEvent>::empty()) == 0);
            assert(seq![ce[0]].last() == ce[0]);
            assert(ce[0].delta == -c.flow);
            assert(total_delta(seq![ce[0]]) == -c.flow);
            assert(total_delta(ce) == 0);
        } else {
            assert(total_delta(ce) == 0);
        }
    }
}

/// The electrons that contacts move to `bike`: the flow of each contact in which
/// it is the receiving bike, minus the flow of each in which it is the giving one.
pub open spec fn net_inflow(contacts: Seq<RedoxContact>, bike: u64) -> int
    decreases contacts.len(),
{
    if contacts.len() == 0 {
        0
    } else {
        let c = contacts.last();
        net_inflow(contacts.drop_last(), bike) + (if c.bike_b == bike {
            c.flow as int
        } else {
            0
        }) - (if c.bike_a == bike {
            c.flow as int
        } else {
            0
        })
    }
}

/// Electrons move from `bike_a` to `bike_b`: the transfers of bike contacts change
/// each bike by what it receives as `bike_b` minus what it gives as `bike_a`.
pub proof fn lemma_exchange_direction(contacts: Seq<RedoxContact>, bike: u64)
    requires
        flows_negatable(contacts),
    ensures
        bike_delta(exchange_events(contacts), bike) == net_inflow(contacts, bike),
    decreases contacts.len(),
{
    if contacts.len() > 0 {
        let rest = contacts.drop_last();
        let c = contacts.last();
        assert(flows_negatable(rest)) by {
            assert forall|i: int| 0 <= i < rest.len() implies #[trigger] rest[i].flow != i32::MIN by {
                assert(rest[i] == contacts[i]);
            }
        }
        assert(c.flow != i32::MIN) by {
            assert(contacts[contacts.len() - 1].flow != i32::MIN);
        }
        lemma_exchange_direction(rest, bike);
        lemma_bike_delta_append(exchange_events(rest), contact_events(c), bike);
        let ce = contact_events(c);
        assert(bike_delta(Seq::<ElectronTransferEvent>::empty(), bike) == 0);
        if c.flow != 0 {
            assert(ce.drop_last() =~= seq![ce[0]]);
            assert(seq![ce[0]].drop_last() =~= Seq::<ElectronTransferEvent>::empty());
            assert(seq![ce[0]].last() == ce[0]);
            assert(ce[0].delta == -c.flow);
            assert(bike_delta(seq![ce[0]], bike) == (if c.bike_a == bike {
                -c.flow
            } else {
                0
            }));
            assert(bike_delta(ce, bike) == bike_delta(seq![ce[0]], bike) + (if c.bike_b == bike {
                c.flow as int
            } else {
                0
            }));
        } else {
            assert(bike_delta(ce, bike) == 0);
        }
    }
}

/// How zone transfers are laid out: adding one more contact appends, after the
/// transfers of the contacts before it, one transfer per pad of that contact
/// giving the pad's electrons, then one per hazard taking the hazard's electrons,
/// all addressed to that contact's bike. Without contacts there are no transfers.
pub proof fn lemma_zone_transfers_layout(contacts: Seq<ZoneContacts>)
    requires
        contacts.len() > 0,
    ensures
        all_zone_events(Seq::<ZoneContacts>::empty()).len() == 0,
        ({
            let before = all_zone_events(contacts.drop_last());
            let c = contacts.last();
            let all = all_zone_events(contacts);
            &&& all.len() == before.len() + c.pads@.len() + c.hazards@.len()
            &&& forall|k: int| 0 <= k < before.len() ==> #[trigger] all[k] == before[k]
            &&& forall|k: int|
                0 <= k < c.pads@.len() ==> #[trigger] all[before.len() + k] == (ElectronTransferEvent {
                    bike: c.bike,
                    delta: c.pads@[k].electron_gain,
                })
            &&& forall|k: int|
                0 <= k < c.hazards@.len() ==> #[trigger] all[before.len() + c.pads@.len() + k] == (
                ElectronTransferEvent { bike: c.bike, delta: (-c.hazards@[k].electron_loss) as i32 })
        }),
{
    let before = all_zone_events(contacts.drop_last());
    let c = contacts.last();
    let all = all_zone_events(contacts);
    let pe = c.pads@.map_values(|p: ReductantPad| pad_event(c.bike, p));
    let he = c.hazards@.map_values(|h: OxidantHazard| hazard_event(c.bike, h));
    assert(all == before + (pe + he));
    assert forall|k: int| 0 <= k < c.pads@.len() implies #[trigger] all[before.len() + k] == (
    ElectronTransferEvent { bike: c.bike, delta: c.pads@[k].electron_gain }) by {
        assert(all[before.len() + k] == pe[k]);
    }
    assert forall|k: int| 0 <= k < c.hazards@.len() implies #[trigger] all[before.len()
        + c.pads@.len() + k] == (ElectronTransferEvent {
        bike: c.bike,
        delta: (-c.hazards@[k].electron_loss) as i32,
    }) by {
        assert(all[before.len() + c.pads@.len() + k] == he[k]);
    }
}

/// Electron transfers between bikes in contact. For each contact with a nonzero
/// flow, `bike_a` loses `flow` electrons and `bike_b` gains them, in that order.
/// Bike against bike, electrons are neither made nor destroyed: the deltas of
/// all transfers produced add up to zero.
pub fn bike_redox_exchange_system(contacts: &Vec<RedoxContact>) -> (events: Vec<
    ElectronTransferEvent,
>)
    requires
        flows_negatable(contacts@),
    ensures
        events@ == exchange_events(contacts@),
        total_delta(events@) == 0,
        forall|bike: u64| #[trigger] bike_delta(events@, bike) == net_inflow(contacts@, bike),
{
    let mut events: Vec<ElectronTransferEvent> = Vec::new();
    let mut i: usize = 0;
    while i < contacts.len()
        invariant
            i <= contacts@.len(),
            flows_negatable(contacts@),
            events@ == exchange_events(contacts@.take(i as int)),
        decreases contacts@.len() - i,
    {
        let c = contacts[i];
        assert(c.flow != i32::MIN) by {
            assert(contacts@[i as int].flow != i32::MIN);
        }
        if c.flow != 0 {
            events.push(ElectronTransferEvent { bike: c.bike_a, delta: -c.flow });
            events.push(ElectronTransferEvent { bike: c.bike_b, delta: c.flow });
        }
        assert(contacts@.take(i + 1).drop_last() =~= contacts@.take(i as int));
        assert(events@ =~= exchange_events(contacts@.take(i as int)) + contact_events(c)) by {
            if c.flow != 0 {
            } else {
            }
        }
        i += 1;
    }
    assert(contacts@.take(i as int) =~= contacts@);
    proof {
        lemma_exchange_total_zero(contacts@);
        assert forall|bike: u64| #[trigger] bike_delta(events@, bike) == net_inflow(contacts@, bike) by {
            lemma_exchange_direction(contacts@, bike);
        }
    }
    events
}

// ---------------------------------------------------------------------------
// Applying transfers

/// No bike appears twice.
pub open spec fn distinct_bikes(counts: Seq<BikeCharge>) -> bool {
    forall|i: int, j: int|
        0 <= i < counts.len() && 0 <= j < counts.len() && i != j ==> #[trigger] counts[i].bike
            != #[trigger] counts[j].bike
}

/// A bike's electron count once `events` have been applied.
pub open spec fn charge_after(c: BikeCharge, events: Seq<ElectronTransferEvent>) -> int {
    c.electrons + bike_delta(events, c.bike)
}

/// Applying `events` one after the other keeps every bike's count within `i32`
/// at every step.
pub open spec fn transfers_fit(counts: Seq<BikeCharge>, events: Seq<ElectronTransferEvent>) -> bool {
    forall|j: int, k: int|
        0 <= j < counts.len() && 0 <= k <= events.len() ==> fits_i32(
            #[trigger] charge_after(counts[j], events.take(k)),
        )
}

proof fn lemma_bike_delta_step(events: Seq<ElectronTransferEvent>, k: int, bike: u64)
    requires
        0 <= k < events.len(),
    ensures
        bike_delta(events.take(k + 1), bike) == bike_delta(events.take(k), bike) + (if events[k].bike
            == bike {
            events[k].delta as int
        } else {
            0
        }),
{
    assert(events.take(k + 1).drop_last() =~= events.take(k));
}

/// Position of `bike` in `counts`, if it is there.
fn find_bike(counts: &Vec<BikeCharge>, bike: u64) -> (pos: Option<usize>)
    ensures
        pos matches Some(j) ==> j < counts@.len() && counts@[j as int].bike == bike,
        pos is None ==> forall|j: int| 0 <= j < counts@.len() ==> #[trigger] counts@[j].bike != bike,
{
    let mut j: usize = 0;
    while j < counts.len()
        invariant
            j <= counts@.len(),
            forall|i: int| 0 <= i < j ==> #[trigger] counts@[i].bike != bike,
        decreases counts@.len() - j,
    {
        if counts[j].bike == bike {
            return Some(j);
        }
        j += 1;
    }
    None
}

/// Applies electron transfers, in order, to the bikes' electron counts.
/// Transfers to a bike that is not in `counts` are ignored. Where some count would
/// leave the range of `i32` at some step, nothing is changed and the overflow is
/// reported; otherwise each bike ends with its count plus the sum of the deltas
/// addressed to it.
pub fn electron_transfer_system(
    counts: &mut Vec<BikeCharge>,
    events: &Vec<ElectronTransferEvent>,
) -> (result: Result<(), ElectronOverflow>)
    requires
        distinct_bikes(old(counts)@),
    ensures
        result is Ok <==> transfers_fit(old(counts)@, events@),
        result is Ok ==> {
            &&& final(counts)@.len() == old(counts)@.len()
            &&& forall|j: int|
                #![trigger final(counts)@[j]]
                0 <= j < old(counts)@.len() ==> {
                    &&& final(counts)@[j].bike == old(counts)@[j].bike
                    &&& final(counts)@[j].electrons == charge_after(old(counts)@[j], events@)
                }
        },
        result is Err ==> final(counts)@ == old(counts)@,
{
    let ghost orig = counts@;
    let mut work: Vec<BikeCharge> = Vec::new();
    let mut i: usize = 0;
    while i < counts.len()
        invariant
            i <= orig.len(),
            counts@ == orig,
            work@ == orig.take(i as int),
        decreases orig.len() - i,
    {
        work.push(counts[i]);
        assert(orig.take(i + 1) =~= orig.take(i as int).push(orig[i as int]));
        i += 1;
    }
    assert(orig.take(i as int) =~= orig);
    let mut e: usize = 0;
    while e < events.len()
        invariant
            e <= events@.len(),
            counts@ == orig,
            distinct_bikes(orig),
            work@.len() == orig.len(),
            forall|j: int|
                #![trigger work@[j]]
                0 <= j < orig.len() ==> {
                    &&& work@[j].bike == orig[j].bike
                    &&& work@[j].electrons == charge_after(orig[j], events@.take(e as int))
                },
            forall|j: int, k: int|
                0 <= j < orig.len() && 0 <= k <= e ==> fits_i32(
                    #[trigger] charge_after(orig[j], events@.take(k)),
                ),
        decreases events@.len() - e,
    {
        let ev = events[e];
        proof {
            assert forall|j: int| 0 <= j < orig.len() implies #[trigger] bike_delta(
                events@.take(e + 1),
                orig[j].bike,
            ) == bike_delta(events@.take(e as int), orig[j].bike) + (if ev.bike == orig[j].bike {
                ev.delta as int
            } else {
                0
            }) by {
                lemma_bike_delta_step(events@, e as int, orig[j].bike);
            }
        }
        match find_bike(&work, ev.bike) {
            Some(j) => {
                let cur = work[j].electrons;
                match cur.checked_add(ev.delta) {
                    Some(v) => {
                        work.set(j, BikeCharge { bike: ev.bike, electrons: v });
                        assert forall|jj: int, k: int|
                            0 <= jj < orig.len() && 0 <= k <= e + 1 implies fits_i32(
                            #[trigger] charge_after(orig[jj], events@.take(k)),
                        ) by {
                            if k == e + 1 {
                                assert(charge_after(orig[jj], events@.take(k)) == charge_after(
                                    orig[jj],
                                    events@.take(e as int),
                                ) + (if ev.bike == orig[jj].bike {
                                    ev.delta as int
                                } else {
                                    0
                                }));
                                if jj != j {
                                    assert(orig[jj].bike != orig[j as int].bike);
                                }
                            }
                        }
                        assert forall|jj: int| #![trigger work@[jj]] 0 <= jj < orig.len() implies {
                            &&& work@[jj].bike == orig[jj].bike
                            &&& work@[jj].electrons == charge_after(
                                orig[jj],
                                events@.take(e + 1),
                            )
                        } by {
                            assert(bike_delta(events@.take(e + 1), orig[jj].bike) == bike_delta(
                                events@.take(e as int),
                                orig[jj].bike,
                            ) + (if ev.bike == orig[jj].bike {
                                ev.delta as int
                            } else {
                                0
                            }));
                            if jj != j {
                                assert(orig[jj].bike != orig[j as int].bike);
                            } else {
                                assert(v == cur + ev.delta);
                            }
                        }
                    },
                    None => {
                        assert(!fits_i32(charge_after(orig[j as int], events@.take(e + 1))));
                        return Err(ElectronOverflow);
                    },
                }
            },
            None => {
                assert forall|jj: int, k: int|
                    0 <= jj < orig.len() && 0 <= k <= e + 1 implies fits_i32(
                    #[trigger] charge_after(orig[jj], events@.take(k)),
                ) by {
                    if k == e + 1 {
                        assert(work@[jj].bike != ev.bike);
                        assert(charge_after(orig[jj], events@.take(k)) == charge_after(
                            orig[jj],
                            events@.take(e as int),
                        ));
                    }
                }
                assert forall|jj: int| #![trigger work@[jj]] 0 <= jj < orig.len() implies {
                    &&& work@[jj].bike == orig[jj].bike
                    &&& work@[jj].electrons == charge_after(orig[jj], events@.take(e + 1))
                } by {
                    assert(work@[jj].bike != ev.bike);
                    assert(bike_delta(events@.take(e + 1), orig[jj].bike) == bike_delta(
                        events@.take(e as int),
                        orig[jj].bike,
                    ));
                }
            },
        }
        e += 1;
    }
    assert(events@.take(e as int) =~= events@);
    *counts = work;
    Ok(())
}

// ---------------------------------------------------------------------------
// Conservation of electrons

/// The number of electrons the bikes hold together.
pub open spec fn total_charge(counts: Seq<BikeCharge>) -> int
    decreases counts.len(),
{
    if counts.len() == 0 {
        0
    } else {
        total_charge(counts.drop_last()) + counts.last().electrons
    }
}

/// The number of electrons the bikes hold together once `events` are applied.
pub open spec fn total_charge_after(
    counts: Seq<BikeCharge>,
    events: Seq<ElectronTransferEvent>,
) -> int
    decreases counts.len(),
{
    if counts.len() == 0 {
        0
    } else {
        total_charge_after(counts.drop_last(), events) + charge_after(counts.last(), events)
    }
}

pub open spec fn holds_bike(counts: Seq<BikeCharge>, bike: u64) -> bool {
    exists|j: int| 0 <= j < counts.len() && #[trigger] counts[j].bike == bike
}

/// Every transfer is addressed to one of the bikes in `counts`.
pub open spec fn addressed_within(
    counts: Seq<BikeCharge>,
    events: Seq<ElectronTransferEvent>,
) -> bool {
    forall|i: int| 0 <= i < events.len() ==> holds_bike(counts, #[trigger] events[i].bike)
}

spec fn matches_of(counts: Seq<BikeCharge>, bike: u64) -> int
    decreases counts.len(),
{
    if counts.len() == 0 {
        0
    } else {
        matches_of(counts.drop_last(), bike) + (if counts.last().bike == bike {
            1int
        } else {
            0
        })
    }
}

proof fn lemma_matches_absent(counts: Seq<BikeCharge>, bike: u64)
    requires
        !holds_bike(counts, bike),
    ensures
        matches_of(counts, bike) == 0,
    decreases counts.len(),
{
    if counts.len() > 0 {
        let rest = counts.drop_last();
        assert(!holds_bike(rest, bike)) by {
            if holds_bike(rest, bike) {
                let j = choose|j: int| 0 <= j < rest.len() && #[trigger] rest[j].bike == bike;
                assert(counts[j].bike == bike);
            }
        }
        assert(counts[counts.len() - 1].bike != bike);
        lemma_matches_absent(rest, bike);
    }
}

proof fn lemma_matches_once(counts: Seq<BikeCharge>, bike: u64)
    requires
        distinct_bikes(counts),
        holds_bike(counts, bike),
    ensures
        matches_of(counts, bike) == 1,
    decreases counts.len(),
{
    let rest = counts.drop_last();
    let n = counts.len();
    assert(distinct_bikes(rest)) by {
        assert forall|i: int, j: int|
            0 <= i < rest.len() && 0 <= j < rest.len() && i != j implies #[trigger] rest[i].bike
            != #[trigger] rest[j].bike by {
            assert(counts[i].bike != counts[j].bike);
        }
    }
    if counts[n - 1].bike == bike {
        assert(!holds_bike(rest, bike)) by {
            if holds_bike(rest, bike) {
                let j = choose|j: int| 0 <= j < rest.len() && #[trigger] rest[j].bike == bike;
                assert(counts[j].bike == counts[n - 1].bike);
            }
        }
        lemma_matches_absent(rest, bike);
    } else {
        assert(holds_bike(rest, bike)) by {
            let j = choose|j: int| 0 <= j < counts.len() && #[trigger] counts[j].bike == bike;
            assert(rest[j].bike == bike);
        }
        lemma_matches_once(rest, bike);
    }
}

proof fn lemma_total_after_push(
    counts: Seq<BikeCharge>,
    events: Seq<ElectronTransferEvent>,
    e: ElectronTransferEvent,
)
    ensures
        total_charge_after(counts, events.push(e)) == total_charge_after(counts, events)
            + matches_of(counts, e.bike) * e.delta,
    decreases counts.len(),
{
    assert(events.push(e).drop_last() =~= events);
    if counts.len() > 0 {
        lemma_total_after_push(counts.drop_last(), events, e);
        assert(matches_of(counts, e.bike) * e.delta == matches_of(counts.drop_last(), e.bike)
            * e.delta + (if counts.last().bike == e.bike {
            1int
        } else {
            0
        }) * e.delta) by (nonlinear_arith)
            requires
                matches_of(counts, e.bike) == matches_of(counts.drop_last(), e.bike) + (if counts.last().bike == e.bike {
                    1int
                } else {
                    0
                }),
        ;
    }
}

proof fn lemma_total_after_no_events(counts: Seq<BikeCharge>)
    ensures
        total_charge_after(counts, Seq::empty()) == total_charge(counts),
    decreases counts.len(),
{
    if counts.len() > 0 {
        lemma_total_after_no_events(counts.drop_last());
    }
}

/// Applying transfers that are all addressed to bikes in `counts` changes the
/// bikes' total by exactly the sum of the transfers' deltas.
pub proof fn lemma_transfers_shift_total(
    counts: Seq<BikeCharge>,
    events: Seq<ElectronTransferEvent>,
)
    requires
        distinct_bikes(counts),
        addressed_within(counts, events),
    ensures
        total_charge_after(counts, events) == total_charge(counts) + total_delta(events),
    decreases events.len(),
{
    if events.len() == 0 {
        lemma_total_after_no_events(counts);
        assert(events =~= Seq::<ElectronTransferEvent>::empty());
    } else {
        let rest = events.drop_last();
        let e = events.last();
        assert(addressed_within(counts, rest)) by {
            assert forall|i: int| 0 <= i < rest.len() implies holds_bike(
                counts,
                #[trigger] rest[i].bike,
            ) by {
                assert(holds_bike(counts, events[i].bike));
            }
        }
        lemma_transfers_shift_total(counts, rest);
        assert(holds_bike(counts, events[events.len() - 1].bike));
        lemma_matches_once(counts, e.bike);
        assert(rest.push(e) =~= events);
        lemma_total_after_push(counts, rest, e);
        assert(matches_of(counts, e.bike) * e.delta == e.delta);
        assert(total_delta(events) == total_delta(rest) + e.delta);
    }
}

/// Contacts between bikes that are all among `counts`.
pub open spec fn contacts_within(counts: Seq<BikeCharge>, contacts: Seq<RedoxContact>) -> bool {
    forall|i: int|
        0 <= i < contacts.len() ==> holds_bike(counts, #[trigger] contacts[i].bike_a) && holds_bike(
            counts,
            contacts[i].bike_b,
        )
}

proof fn lemma_exchange_addressed(counts: Seq<BikeCharge>, contacts: Seq<RedoxContact>)
    requires
        contacts_within(counts, contacts),
    ensures
        addressed_within(counts, exchange_events(contacts)),
    decreases contacts.len(),
{
    if contacts.len() > 0 {
        let rest = contacts.drop_last();
        assert(contacts_within(counts, rest)) by {
            assert forall|i: int| 0 <= i < rest.len() implies holds_bike(
                counts,
                #[trigger] rest[i].bike_a,
            ) && holds_bike(counts, rest[i].bike_b) by {
                assert(rest[i] == contacts[i]);
            }
        }
        lemma_exchange_addressed(counts, rest);
        let c = contacts.last();
        assert(holds_bike(counts, contacts[contacts.len() - 1].bike_a));
        let evs = exchange_events(contacts);
        let pre = exchange_events(rest);
        assert forall|i: int| 0 <= i < evs.len() implies holds_bike(
            counts,
            #[trigger] evs[i].bike,
        ) by {
            if i < pre.len() {
                assert(evs[i] == pre[i]);
            }
        }
    }
}

/// Bike-against-bike exchanges conserve electrons: once the transfers of any
/// contacts between bikes of `counts` are applied, the bikes hold together as
/// many electrons as before.
pub proof fn lemma_bike_exchange_conserves_electrons(
    counts: Seq<BikeCharge>,
    contacts: Seq<RedoxContact>,
)
    requires
        distinct_bikes(counts),
        contacts_within(counts, contacts),
        flows_negatable(contacts),
    ensures
        total_charge_after(counts, exchange_events(contacts)) == total_charge(counts),
{
    lemma_exchange_addressed(counts, contacts);
    lemma_transfers_shift_total(counts, exchange_events(contacts));
    lemma_exchange_total_zero(contacts);
}

} // verus!
