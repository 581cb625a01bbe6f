//! Table of the track slots.
//!
//! The number of slots is fixed when the buffer starts: joining segments needs
//! the same streams in all of them. Applications come and go in the slots; a
//! vacant one is fed silence.
use crate::audio::{Source, SourceView, same_process, source_views};
use crate::text;
use vstd::prelude::*;

verus! {

/// An application that holds a track slot.
#[derive(Debug)]
pub struct Slot {
    pub label: String,
    /// Executable in the slot. It, and not the process, identifies an
    /// application: several processes of one name are captured together.
    pub process: String,
    pub pid: Option<u32>,
    /// False as soon as the capture has ended, for whatever reason. A dead slot
    /// goes back to silence.
    pub alive: bool,
}

/// A slot as text.
#[verifier::ext_equal]
pub struct SlotView {
    pub label: Seq<char>,
    pub process: Seq<char>,
    pub pid: Option<u32>,
    pub alive: bool,
}

impl View for Slot {
    type V = SlotView;

    open spec fn view(&self) -> SlotView {
        SlotView {
            label: self.label@,
            process: self.process@,
            pid: self.pid,
            alive: self.alive,
        }
    }
}

/// The slot that a source takes.
pub open spec fn seat(source: SourceView) -> SlotView {
    SlotView { label: source.label, process: source.process, pid: source.pid, alive: true }
}

/// Whether an executable holds a slot.
pub open spec fn holds_process(slots: Seq<Option<SlotView>>, process: Seq<char>) -> bool {
    exists|i: int|
        0 <= i < slots.len() && (#[trigger] slots[i]) is Some && same_process(
            slots[i]->0.process,
            process,
        )
}

/// The first vacant slot, or the number of slots.
pub open spec fn first_free(slots: Seq<Option<SlotView>>) -> int
    decreases slots.len(),
{
    if slots.len() == 0 || slots[0] is None {
        0
    } else {
        1 + first_free(slots.skip(1))
    }
}

/// The label of a track: that of its application, or a mark that names the
/// vacant slot.
pub open spec fn track_label(slots: Seq<Option<SlotView>>, i: int) -> Seq<char> {
    match slots[i] {
        Some(slot) => slot.label,
        None => "(libre "@ + text::decimal(i as nat) + ")"@,
    }
}

pub open spec fn track_labels(slots: Seq<Option<SlotView>>) -> Seq<Seq<char>> {
    Seq::new(slots.len(), |i: int| track_label(slots, i))
}

/// Whether the capture of a slot runs.
pub open spec fn is_live(slots: Seq<Option<SlotView>>, i: int) -> bool {
    0 <= i < slots.len() && slots[i] is Some && slots[i]->0.alive
}

/// Whether a slot is held by an application whose capture has ended.
pub open spec fn is_dead(slot: Option<SlotView>) -> bool {
    slot is Some && !slot->0.alive
}

/// The labels of the dead slots, in order.
pub open spec fn dead_labels(slots: Seq<Option<SlotView>>) -> Seq<Seq<char>>
    decreases slots.len(),
{
    if slots.len() == 0 {
        Seq::empty()
    } else if is_dead(slots.last()) {
        dead_labels(slots.drop_last()).push(slots.last()->0.label)
    } else {
        dead_labels(slots.drop_last())
    }
}

/// The table without its dead slots.
pub open spec fn reaped(slots: Seq<Option<SlotView>>) -> Seq<Option<SlotView>> {
    Seq::new(
        slots.len(),
        |i: int|
            if is_dead(slots[i]) {
                None
            } else {
                slots[i]
            },
    )
}

/// Whether an executable is among sources.
pub open spec fn is_seen(seen: Seq<SourceView>, process: Seq<char>) -> bool {
    exists|i: int| 0 <= i < seen.len() && same_process(#[trigger] seen[i].process, process)
}

/// Whether a slot is held by an application that is gone. The microphone has
/// no process and never is.
pub open spec fn is_gone(slot: Option<SlotView>, seen: Seq<SourceView>) -> bool {
    slot is Some && slot->0.pid is Some && !is_seen(seen, slot->0.process)
}

/// The table without the applications that are gone.
pub open spec fn released(slots: Seq<Option<SlotView>>, seen: Seq<SourceView>) -> Seq<
    Option<SlotView>,
> {
    Seq::new(
        slots.len(),
        |i: int|
            if is_gone(slots[i], seen) {
                None
            } else {
                slots[i]
            },
    )
}

/// The slots, in order, whose application is gone.
pub open spec fn gone_indices(slots: Seq<Option<SlotView>>, seen: Seq<SourceView>) -> Seq<int>
    decreases slots.len(),
{
    if slots.len() == 0 {
        Seq::empty()
    } else if is_gone(slots.last(), seen) {
        gone_indices(slots.drop_last(), seen).push(slots.len() - 1)
    } else {
        gone_indices(slots.drop_last(), seen)
    }
}

/// A source to capture into a slot.
#[derive(Debug)]
pub struct Attachment {
    pub index: usize,
    pub pid: Option<u32>,
    pub device: Option<String>,
}

/// An attachment as text: the slot, the process and the device.
pub open spec fn attachment(index: int, source: SourceView) -> (int, Option<u32>, Option<Seq<char>>) {
    (index, source.pid, source.device)
}

impl View for Attachment {
    type V = (int, Option<u32>, Option<Seq<char>>);

    open spec fn view(&self) -> (int, Option<u32>, Option<Seq<char>>) {
        (
            self.index as int,
            self.pid,
            match self.device {
                Some(device) => Some(device@),
                None => None,
            },
        )
    }
}

pub open spec fn attachment_views(s: Seq<Attachment>) -> Seq<(int, Option<u32>, Option<Seq<char>>)> {
    Seq::new(s.len(), |i: int| s[i]@)
}

/// The table, and the captures to start, once sources were seated one after the
/// other in the vacant slots, the reserved one excepted. With `known` set, a
/// source without process and one that has its slot already are passed over.
/// Seating ends where no slot is left.
pub open spec fn seated(
    slots: Seq<Option<SlotView>>,
    sources: Seq<SourceView>,
    reserved: int,
    known: bool,
) -> (Seq<Option<SlotView>>, Seq<(int, Option<u32>, Option<Seq<char>>)>)
    decreases sources.len(),
{
    if sources.len() == 0 {
        (slots, Seq::empty())
    } else if known && (sources[0].pid is None || holds_process(slots, sources[0].process)) {
        seated(slots, sources.skip(1), reserved, known)
    } else {
        let i = first_free(slots);
        if i >= slots.len() || i == reserved {
            (slots, Seq::empty())
        } else {
            let (rest, starts) = seated(
                slots.update(i, Some(seat(sources[0]))),
                sources.skip(1),
                reserved,
                known,
            );
            (rest, seq![attachment(i, sources[0])] + starts)
        }
    }
}

/// The captures to stop and to start so that the table matches the applications
/// that are there.
#[derive(Debug)]
pub struct Changes {
    pub stop: Vec<usize>,
    pub start: Vec<Attachment>,
}

/// The table of slots. The index is the number of the track in the file.
#[derive(Debug)]
pub struct SlotMap {
    pub slots: Vec<Option<Slot>>,
}

pub open spec fn slot_view(slot: Option<Slot>) -> Option<SlotView> {
    match slot {
        Some(slot) => Some(slot@),
        None => None,
    }
}

impl View for SlotMap {
    type V = Seq<Option<SlotView>>;

    open spec fn view(&self) -> Seq<Option<SlotView>> {
        Seq::new(self.slots@.len(), |i: int| slot_view(self.slots@[i]))
    }
}

proof fn free_bounds(slots: Seq<Option<SlotView>>)
    ensures
        0 <= first_free(slots) <= slots.len(),
        first_free(slots) < slots.len() ==> slots[first_free(slots)] is None,
        forall|j: int| 0 <= j < first_free(slots) ==> (#[trigger] slots[j]) is Some,
    decreases slots.len(),
{
    if slots.len() > 0 && slots[0] is Some {
        free_bounds(slots.skip(1));
        assert forall|j: int| 0 <= j < first_free(slots) implies (#[trigger] slots[j]) is Some by {
            if j > 0 {
                assert(slots.skip(1)[j - 1] == slots[j]);
            }
        }
    }
}

proof fn free_found(slots: Seq<Option<SlotView>>, i: int)
    requires
        0 <= i <= slots.len(),
        i < slots.len() ==> slots[i] is None,
        forall|j: int| 0 <= j < i ==> (#[trigger] slots[j]) is Some,
    ensures
        first_free(slots) == i,
{
    free_bounds(slots);
    let f = first_free(slots);
    if f < i {
        assert(slots[f] is Some);
    }
    if i < f {
        assert(slots[i] is Some);
    }
}

impl SlotMap {
    /// A table of vacant slots.
    pub fn new(size: usize) -> (r: Self)
        ensures
            r@ == Seq::new(size as nat, |i: int| None::<SlotView>),
    {
        let mut slots: Vec<Option<Slot>> = Vec::new();
        for i in 0..size
            invariant
                slots@.len() == i,
                forall|j: int| 0 <= j < i ==> (#[trigger] slots@[j]) is None,
        {
            slots.push(None);
        }
        let r = SlotMap { slots };
        proof {
            assert(r@ =~= Seq::new(size as nat, |i: int| None::<SlotView>));
        }
        r
    }

    /// The labels of the tracks, in the order of the file.
    pub fn labels(&self) -> (r: Vec<String>)
        ensures
            text::texts(r@) == track_labels(self@),
    {
        let mut r: Vec<String> = Vec::new();
        for i in 0..self.slots.len()
            invariant
                r@.len() == i,
                forall|j: int| 0 <= j < i ==> (#[trigger] r@[j])@ == track_label(self@, j),
        {
            proof {
                assert(self@[i as int] == slot_view(self.slots@[i as int]));
            }
            match &self.slots[i] {
                Some(slot) => {
                    r.push(slot.label.clone());
                },
                None => {
                    let mut label = "(libre ".to_owned();
                    label.append(text::decimal_text(i as u64).as_str());
                    label.append(")");
                    r.push(label);
                },
            }
        }
        proof {
            assert(text::texts(r@) =~= track_labels(self@));
        }
        r
    }

    /// Whether an executable holds a slot.
    pub fn holds(&self, process: &str) -> (r: bool)
        ensures
            r == holds_process(self@, process@),
            r <==> exists|i: int|
                0 <= i < self@.len() && (#[trigger] self@[i]) is Some && text::lower(
                    self@[i]->0.process,
                ) == text::lower(process@),
    {
        for i in 0..self.slots.len()
            invariant
                forall|j: int|
                    0 <= j < i ==> !((#[trigger] self@[j]) is Some && same_process(
                        self@[j]->0.process,
                        process@,
                    )),
        {
            proof {
                assert(self@[i as int] == slot_view(self.slots@[i as int]));
            }
            if let Some(slot) = &self.slots[i] {
                if text::eq_ignore_ascii_case(slot.process.as_str(), process) {
                    return true;
                }
            }
        }
        false
    }

    /// The first vacant slot.
    pub fn free_index(&self) -> (r: Option<usize>)
        ensures
            match r {
                Some(index) => index == first_free(self@) && index < self@.len(),
                None => first_free(self@) == self@.len(),
            },
            match r {
                Some(index) => {
                    &&& index < self@.len()
                    &&& self@[index as int] is None
                    &&& forall|j: int| 0 <= j < index ==> (#[trigger] self@[j]) is Some
                },
                None => forall|j: int| 0 <= j < self@.len() ==> (#[trigger] self@[j]) is Some,
            },
    {
        for i in 0..self.slots.len()
            invariant
                forall|j: int| 0 <= j < i ==> (#[trigger] self@[j]) is Some,
        {
            proof {
                assert(self@[i as int] == slot_view(self.slots@[i as int]));
            }
            if self.slots[i].is_none() {
                proof {
                    free_found(self@, i as int);
                }
                return Some(i);
            }
        }
        proof {
            free_found(self@, self@.len() as int);
        }
        None
    }

    /// A slot is active only while its capture runs; otherwise it is to be fed
    /// silence.
    pub fn is_active(&self, index: usize) -> (r: bool)
        ensures
            r == is_live(self@, index as int),
            r == (index < self@.len() && self@[index as int] is Some
                && self@[index as int]->0.alive),
    {
        if index >= self.slots.len() {
            return false;
        }
        proof {
            assert(self@[index as int] == slot_view(self.slots@[index as int]));
        }
        match &self.slots[index] {
            Some(slot) => slot.alive,
            None => false,
        }
    }

    /// Notes that the capture of a slot has ended.
    pub fn mark_ended(&mut self, index: usize)
        ensures
            final(self)@ == (if index < old(self)@.len() && old(self)@[index as int] is Some {
                old(self)@.update(
                    index as int,
                    Some(SlotView { alive: false, ..old(self)@[index as int]->0 }),
                )
            } else {
                old(self)@
            }),
    {
        let ghost before = self@;
        if index < self.slots.len() {
            proof {
                assert(before[index as int] == slot_view(self.slots@[index as int]));
            }
            let mut taken: Option<Slot> = None;
            std::mem::swap(&mut taken, &mut self.slots[index]);
            if let Some(slot) = taken {
                let Slot { label, process, pid, alive: _ } = slot;
                self.slots[index] = Some(Slot { label, process, pid, alive: false });
                proof {
                    assert(self@ =~= before.update(
                        index as int,
                        Some(SlotView { alive: false, ..before[index as int]->0 }),
                    ));
                }
            } else {
                proof {
                    assert(self@ =~= before);
                }
            }
        }
    }

    /// Vacates the slots whose capture has ended.
    ///
    /// Returns their labels: a source that fails by itself is something that the
    /// user should be able to connect with a silent track.
    pub fn reap(&mut self) -> (lost: Vec<String>)
        ensures
            final(self)@ == reaped(old(self)@),
            text::texts(lost@) == dead_labels(old(self)@),
    {
        let ghost before = self@;
        let mut lost: Vec<String> = Vec::new();
        let n: usize = self.slots.len();
        proof {
            assert(text::texts(lost@) =~= Seq::<Seq<char>>::empty());
            assert(before.take(0) =~= Seq::empty());
        }
        for i in 0..n
            invariant
                n == before.len(),
                self@.len() == n,
                text::texts(lost@) == dead_labels(before.take(i as int)),
                forall|j: int| 0 <= j < i ==> #[trigger] self@[j] == reaped(before)[j],
                forall|j: int| i <= j < n ==> #[trigger] self@[j] == before[j],
        {
            let ghost current = self@;
            proof {
                assert(before.take(i + 1).drop_last() =~= before.take(i as int));
                assert(before.take(i + 1).last() == before[i as int]);
                assert(self@[i as int] == slot_view(self.slots@[i as int]));
            }
            let dead = match &self.slots[i] {
                Some(slot) => !slot.alive,
                None => false,
            };
            if dead {
                let mut taken: Option<Slot> = None;
                std::mem::swap(&mut taken, &mut self.slots[i]);
                proof {
                    assert(self@ =~= current.update(i as int, None));
                }
                if let Some(slot) = taken {
                    let ghost earlier = lost@;
                    lost.push(slot.label);
                    proof {
                        assert(text::texts(lost@) =~= text::texts(earlier).push(
                            before[i as int]->0.label,
                        ));
                    }
                }
            }
        }
        proof {
            assert(before.take(n as int) =~= before);
            assert(self@ =~= reaped(before));
        }
        lost
    }

    /// Puts a source into a slot. Returns the capture to start, or nothing where
    /// the table has no such slot.
    pub fn attach(&mut self, index: usize, source: Source) -> (r: Option<Attachment>)
        ensures
            match r {
                Some(start) => {
                    &&& index < old(self)@.len()
                    &&& start@ == attachment(index as int, source@)
                    &&& start@ == (index as int, source@.pid, source@.device)
                    &&& final(self)@ == old(self)@.update(index as int, Some(seat(source@)))
                    &&& final(self)@[index as int] == Some(
                        SlotView {
                            label: source@.label,
                            process: source@.process,
                            pid: source@.pid,
                            alive: true,
                        },
                    )
                },
                None => index >= old(self)@.len() && final(self)@ == old(self)@,
            },
    {
        if index >= self.slots.len() {
            return None;
        }
        let ghost before = self@;
        let ghost view = source@;
        let Source { label, process, pid, device } = source;
        self.slots[index] = Some(Slot { label, process, pid, alive: true });
        proof {
            assert(self@ =~= before.update(index as int, Some(seat(view))));
        }
        Some(Attachment { index, pid, device })
    }

    /// Seats sources in the vacant slots, the reserved one excepted. Returns the
    /// captures to start.
    pub fn seat_all(&mut self, sources: Vec<Source>, reserved: usize, known: bool) -> (start: Vec<
        Attachment,
    >)
        ensures
            final(self)@ == seated(
                old(self)@,
                source_views(sources@),
                reserved as int,
                known,
            ).0,
            attachment_views(start@) == seated(
                old(self)@,
                source_views(sources@),
                reserved as int,
                known,
            ).1,
    {
        let ghost views = source_views(sources@);
        let ghost goal = seated(self@, views, reserved as int, known);
        let mut left = sources;
        let mut start: Vec<Attachment> = Vec::new();
        let ghost mut done: int = 0;
        proof {
            assert(views.skip(0) =~= views);
            assert(attachment_views(start@) + goal.1 =~= goal.1);
        }
        while left.len() > 0
            invariant_except_break
                0 <= done <= views.len(),
                source_views(left@) == views.skip(done),
                goal.0 == seated(self@, views.skip(done), reserved as int, known).0,
                goal.1 == attachment_views(start@) + seated(
                    self@,
                    views.skip(done),
                    reserved as int,
                    known,
                ).1,
            ensures
                self@ == goal.0,
                attachment_views(start@) == goal.1,
            decreases left.len(),
        {
            let ghost now = views.skip(done);
            let ghost held = left@;
            proof {
                assert(source_views(held)[0] == now[0]);
            }
            let source = left.remove(0);
            proof {
                assert(source@ == now[0]);
                assert(now.skip(1) =~= views.skip(done + 1));
                assert(source_views(left@) =~= views.skip(done + 1)) by {
                    assert forall|j: int| 0 <= j < left@.len() implies #[trigger] left@[j]@
                        == views.skip(done + 1)[j] by {
                        assert(source_views(held)[j + 1] == now[j + 1]);
                    }
                }
                done = done + 1;
            }
            if known && (source.pid.is_none() || self.holds(source.process.as_str())) {
                continue;
            }
            proof {
                free_bounds(self@);
            }
            let index: usize = match self.free_index() {
                Some(index) => index,
                None => reserved,
            };
            if index == reserved {
                proof {
                    assert(seated(self@, now, reserved as int, known) == (
                        self@,
                        Seq::<(int, Option<u32>, Option<Seq<char>>)>::empty(),
                    ));
                    assert(goal.1 =~= attachment_views(start@));
                }
                break;
            }
            let ghost earlier = start@;
            let ghost view = source@;
            if let Some(attached) = self.attach(index, source) {
                start.push(attached);
            }
            proof {
                let rest = seated(self@, views.skip(done), reserved as int, known).1;
                assert(attachment_views(start@) =~= attachment_views(earlier).push(
                    attachment(index as int, view),
                ));
                assert(attachment_views(start@) + rest =~= attachment_views(earlier) + (seq![
                    attachment(index as int, view),
                ] + rest));
            }
        }
        start
    }

    /// Vacates the slots of the applications that are gone. Returns those slots;
    /// their captures are to be stopped.
    ///
    /// Executables are compared: a process that restarts has another number
    /// while its application is still there, and cutting its track would lose
    /// sound for nothing.
    pub fn release(&mut self, seen: &Vec<Source>) -> (stop: Vec<usize>)
        ensures
            final(self)@ == released(old(self)@, source_views(seen@)),
            stop@.map_values(|i: usize| i as int) == gone_indices(
                old(self)@,
                source_views(seen@),
            ),
    {
        let ghost before = self@;
        let ghost views = source_views(seen@);
        let n: usize = self.slots.len();
        let mut stop: Vec<usize> = Vec::new();
        proof {
            assert(stop@.map_values(|i: usize| i as int) =~= Seq::<int>::empty());
            assert(before.take(0) =~= Seq::empty());
        }
        for i in 0..n
            invariant
                n == before.len(),
                self@.len() == n,
                views == source_views(seen@),
                stop@.map_values(|i: usize| i as int) == gone_indices(before.take(i as int), views),
                forall|j: int| 0 <= j < i ==> #[trigger] self@[j] == released(before, views)[j],
                forall|j: int| i <= j < n ==> #[trigger] self@[j] == before[j],
        {
            let ghost current = self@;
            proof {
                assert(before.take(i + 1).drop_last() =~= before.take(i as int));
                assert(before.take(i + 1).last() == before[i as int]);
                assert(self@[i as int] == slot_view(self.slots@[i as int]));
            }
            let gone = match &self.slots[i] {
                Some(slot) => slot.pid.is_some() && !among(seen, slot.process.as_str()),
                None => false,
            };
            if gone {
                let ghost earlier = stop@;
                self.slots[i] = None;
                stop.push(i);
                proof {
                    assert(self@ =~= current.update(i as int, None));
                    assert(stop@.map_values(|i: usize| i as int) =~= earlier.map_values(
                        |i: usize| i as int,
                    ).push(i as int));
                }
            }
        }
        proof {
            assert(before.take(n as int) =~= before);
            assert(self@ =~= released(before, views));
        }
        stop
    }

    /// Brings the table in line with the applications that are there: vacates
    /// the slots of those that are gone, then seats the newcomers.
    pub fn reconcile(&mut self, seen: Vec<Source>, mic_index: usize) -> (r: Changes)
        ensures
            final(self)@ == reconciled(old(self)@, source_views(seen@), mic_index as int),
            r.stop@.map_values(|i: usize| i as int) == gone_indices(
                old(self)@,
                source_views(seen@),
            ),
            attachment_views(r.start@) == seated(
                released(old(self)@, source_views(seen@)),
                source_views(seen@),
                mic_index as int,
                true,
            ).1,
    {
        let stop = self.release(&seen);
        let start = self.seat_all(seen, mic_index, true);
        Changes { stop, start }
    }
}

/// The table in line with the applications that are there.
pub open spec fn reconciled(
    slots: Seq<Option<SlotView>>,
    seen: Seq<SourceView>,
    mic_index: int,
) -> Seq<Option<SlotView>> {
    seated(released(slots, seen), seen, mic_index, true).0
}

fn among(seen: &Vec<Source>, process: &str) -> (r: bool)
    ensures
        r == is_seen(source_views(seen@), process@),
{
    let ghost views = source_views(seen@);
    for i in 0..seen.len()
        invariant
            views == source_views(seen@),
            forall|j: int| 0 <= j < i ==> !same_process(#[trigger] views[j].process, process@),
    {
        if text::eq_ignore_ascii_case(seen[i].process.as_str(), process) {
            proof {
                assert(same_process(views[i as int].process, process@));
            }
            return true;
        }
    }
    false
}

/// No executable holds two slots.
pub open spec fn one_slot_each(slots: Seq<Option<SlotView>>) -> bool {
    forall|i: int, j: int|
        0 <= i < j < slots.len() && (#[trigger] slots[i]) is Some && (#[trigger] slots[j]) is Some
            ==> !same_process(slots[i]->0.process, slots[j]->0.process)
}

/// Seating fills vacant slots only, keeps the size of the table, and never
/// touches the reserved slot.
pub proof fn seating_fills_vacant_slots(
    slots: Seq<Option<SlotView>>,
    sources: Seq<SourceView>,
    reserved: int,
    known: bool,
)
    ensures
        ({
            let r = seated(slots, sources, reserved, known).0;
            &&& r.len() == slots.len()
            &&& forall|i: int|
                0 <= i < slots.len() && ((#[trigger] slots[i]) is Some || i == reserved) ==> r[i]
                    == slots[i]
        }),
    decreases sources.len(),
{
    if sources.len() > 0 {
        free_bounds(slots);
        let i = first_free(slots);
        if known && (sources[0].pid is None || holds_process(slots, sources[0].process)) {
            seating_fills_vacant_slots(slots, sources.skip(1), reserved, known);
        } else if i < slots.len() && i != reserved {
            let next = slots.update(i, Some(seat(sources[0])));
            seating_fills_vacant_slots(next, sources.skip(1), reserved, known);
            let r = seated(slots, sources, reserved, known).0;
            assert forall|k: int|
                0 <= k < slots.len() && ((#[trigger] slots[k]) is Some || k == reserved) implies r[k]
                == slots[k] by {
                assert(next[k] == slots[k]);
            }
        }
    }
}

proof fn seating_is_exclusive(
    slots: Seq<Option<SlotView>>,
    sources: Seq<SourceView>,
    reserved: int,
)
    requires
        one_slot_each(slots),
    ensures
        one_slot_each(seated(slots, sources, reserved, true).0),
    decreases sources.len(),
{
    if sources.len() > 0 {
        free_bounds(slots);
        let i = first_free(slots);
        if sources[0].pid is None || holds_process(slots, sources[0].process) {
            seating_is_exclusive(slots, sources.skip(1), reserved);
        } else if i < slots.len() && i != reserved {
            let next = slots.update(i, Some(seat(sources[0])));
            assert forall|a: int, b: int|
                0 <= a < b < next.len() && (#[trigger] next[a]) is Some && (
                #[trigger] next[b]) is Some implies !same_process(
                next[a]->0.process,
                next[b]->0.process,
            ) by {
                if a == i {
                    assert(slots[b] is Some);
                } else if b == i {
                    assert(slots[a] is Some);
                } else {
                    assert(slots[a] is Some && slots[b] is Some);
                }
            }
            seating_is_exclusive(next, sources.skip(1), reserved);
        }
    }
}

proof fn seated_come_from_sources(
    slots: Seq<Option<SlotView>>,
    sources: Seq<SourceView>,
    reserved: int,
    i: int,
)
    requires
        0 <= i < slots.len(),
        slots[i] is None,
        seated(slots, sources, reserved, true).0[i] is Some,
    ensures
        is_seen(sources, seated(slots, sources, reserved, true).0[i]->0.process),
    decreases sources.len(),
{
    let r = seated(slots, sources, reserved, true).0;
    let rest = sources.skip(1);
    if sources.len() > 0 {
        free_bounds(slots);
        let f = first_free(slots);
        let next = slots.update(f, Some(seat(sources[0])));
        if sources[0].pid is None || holds_process(slots, sources[0].process) {
            seated_come_from_sources(slots, rest, reserved, i);
        } else if f < slots.len() && f != reserved {
            if i == f {
                seating_fills_vacant_slots(next, rest, reserved, true);
                assert(next[i] is Some);
                assert(same_process(sources[0].process, r[i]->0.process));
            } else {
                seated_come_from_sources(next, rest, reserved, i);
            }
        }
        if is_seen(rest, r[i]->0.process) {
            let k = choose|k: int|
                0 <= k < rest.len() && same_process(#[trigger] rest[k].process, r[i]->0.process);
            assert(same_process(sources[k + 1].process, r[i]->0.process));
        }
    }
}

/// What a reconciliation keeps: the number of slots; every slot without a
/// process, so the microphone; the slot of every application that is still
/// there; the reserved slot, unless its application is gone. Every application
/// in the table is there, and none holds two slots.
pub proof fn reconciliation_is_faithful(
    slots: Seq<Option<SlotView>>,
    seen: Seq<SourceView>,
    mic_index: int,
)
    ensures
        ({
            let r = reconciled(slots, seen, mic_index);
            &&& r.len() == slots.len()
            &&& forall|i: int|
                0 <= i < slots.len() && (#[trigger] slots[i]) is Some && !is_gone(slots[i], seen)
                    ==> r[i] == slots[i]
            &&& 0 <= mic_index < slots.len() && slots[mic_index] is None ==> r[mic_index] is None
            &&& forall|i: int|
                0 <= i < r.len() && (#[trigger] r[i]) is Some && r[i]->0.pid is Some ==> is_seen(
                    seen,
                    r[i]->0.process,
                )
            &&& one_slot_each(slots) ==> one_slot_each(r)
        }),
{
    let free = released(slots, seen);
    let r = reconciled(slots, seen, mic_index);
    seating_fills_vacant_slots(free, seen, mic_index, true);
    assert forall|i: int|
        0 <= i < slots.len() && (#[trigger] slots[i]) is Some && !is_gone(
            slots[i],
            seen,
        ) implies r[i] == slots[i] by {
        assert(free[i] == slots[i]);
    }
    if 0 <= mic_index < slots.len() && slots[mic_index] is None {
        assert(free[mic_index] == slots[mic_index]);
    }
    assert forall|i: int|
        0 <= i < r.len() && (#[trigger] r[i]) is Some && r[i]->0.pid is Some implies is_seen(
        seen,
        r[i]->0.process,
    ) by {
        if free[i] is None {
            seated_come_from_sources(free, seen, mic_index, i);
        } else {
            assert(!is_gone(slots[i], seen));
        }
    }
    if one_slot_each(slots) {
        assert forall|a: int, b: int|
            0 <= a < b < free.len() && (#[trigger] free[a]) is Some && (
            #[trigger] free[b]) is Some implies !same_process(
            free[a]->0.process,
            free[b]->0.process,
        ) by {
            assert(slots[a] is Some && slots[b] is Some);
        }
        seating_is_exclusive(free, seen, mic_index);
    }
}

/// A source that can be seated is seated, or there is no room: once sources have
/// been seated, the executable of each of them holds a slot, up to the case of its
/// name, unless every slot before the reserved one, or every slot of the table, is
/// taken. Where those that have their slot already are passed over, sources without
/// a process are too.
pub proof fn seating_leaves_nobody_out(
    slots: Seq<Option<SlotView>>,
    sources: Seq<SourceView>,
    reserved: int,
    known: bool,
    k: int,
)
    requires
        0 <= k < sources.len(),
        known ==> sources[k].pid is Some,
    ensures
        ({
            let r = seated(slots, sources, reserved, known).0;
            ||| exists|i: int|
                0 <= i < r.len() && (#[trigger] r[i]) is Some && text::lower(r[i]->0.process)
                    == text::lower(sources[k].process)
            ||| forall|i: int| 0 <= i < r.len() ==> (#[trigger] r[i]) is Some
            ||| 0 <= reserved < r.len() && forall|i: int|
                0 <= i < reserved ==> (#[trigger] r[i]) is Some
        }),
    decreases sources.len(),
{
    let r = seated(slots, sources, reserved, known).0;
    let rest = sources.skip(1);
    let f = first_free(slots);
    free_bounds(slots);
    seating_fills_vacant_slots(slots, sources, reserved, known);
    if known && (sources[0].pid is None || holds_process(slots, sources[0].process)) {
        if k == 0 {
            let i = choose|i: int|
                0 <= i < slots.len() && (#[trigger] slots[i]) is Some && same_process(
                    slots[i]->0.process,
                    sources[0].process,
                );
            assert(r[i] == slots[i]);
        } else {
            assert(rest[k - 1] == sources[k]);
            seating_leaves_nobody_out(slots, rest, reserved, known, k - 1);
        }
    } else if f < slots.len() && f != reserved {
        let next = slots.update(f, Some(seat(sources[0])));
        if k == 0 {
            seating_fills_vacant_slots(next, rest, reserved, known);
            assert(next[f] is Some);
            assert(r[f] == next[f]);
        } else {
            assert(rest[k - 1] == sources[k]);
            seating_leaves_nobody_out(next, rest, reserved, known, k - 1);
        }
    } else {
        assert(r == slots);
    }
}

/// A capture is started for each slot that seating has filled, and for no other:
/// each start goes to another slot, one that was vacant and is not the reserved one,
/// and captures the source that the slot now stands for.
pub proof fn seating_starts_what_it_seats(
    slots: Seq<Option<SlotView>>,
    sources: Seq<SourceView>,
    reserved: int,
    known: bool,
)
    ensures
        ({
            let (r, starts) = seated(slots, sources, reserved, known);
            &&& r.len() == slots.len()
            &&& forall|m: int|
                0 <= m < starts.len() ==> {
                    let i = (#[trigger] starts[m]).0;
                    &&& 0 <= i < slots.len() && i != reserved
                    &&& slots[i] is None
                    &&& r[i] is Some && r[i]->0.alive && r[i]->0.pid == starts[m].1
                    &&& exists|k: int|
                        0 <= k < sources.len() && (#[trigger] sources[k]).pid == starts[m].1
                            && sources[k].device == starts[m].2 && sources[k].label
                            == r[i]->0.label && sources[k].process == r[i]->0.process
                }
            &&& forall|m: int, n: int|
                0 <= m < n < starts.len() ==> (#[trigger] starts[m]).0 < (#[trigger] starts[n]).0
            &&& forall|i: int|
                0 <= i < slots.len() && (#[trigger] slots[i]) is None && r[i] is Some ==> exists|
                    m: int,
                |
                    0 <= m < starts.len() && (#[trigger] starts[m]).0 == i
        }),
    decreases sources.len(),
{
    let (r, starts) = seated(slots, sources, reserved, known);
    let rest = sources.skip(1);
    let f = first_free(slots);
    if sources.len() > 0 {
        free_bounds(slots);
        if known && (sources[0].pid is None || holds_process(slots, sources[0].process)) {
            seating_starts_what_it_seats(slots, rest, reserved, known);
            assert forall|m: int| 0 <= m < starts.len() implies exists|k: int|
                0 <= k < sources.len() && (#[trigger] sources[k]).pid == (
                #[trigger] starts[m]).1 && sources[k].device == starts[m].2 && sources[k].label
                    == r[starts[m].0]->0.label && sources[k].process
                    == r[starts[m].0]->0.process by {
                let k = choose|k: int|
                    0 <= k < rest.len() && (#[trigger] rest[k]).pid == starts[m].1
                        && rest[k].device == starts[m].2 && rest[k].label
                        == r[starts[m].0]->0.label && rest[k].process
                        == r[starts[m].0]->0.process;
                assert(sources[k + 1] == rest[k]);
            }
        } else if f < slots.len() && f != reserved {
            let next = slots.update(f, Some(seat(sources[0])));
            let later = seated(next, rest, reserved, known).1;
            seating_starts_what_it_seats(next, rest, reserved, known);
            seating_fills_vacant_slots(next, rest, reserved, known);
            assert(next[f] is Some);
            assert(starts == seq![attachment(f, sources[0])] + later);
            assert forall|m: int| 0 <= m < starts.len() implies {
                let i = (#[trigger] starts[m]).0;
                &&& 0 <= i < slots.len() && i != reserved
                &&& slots[i] is None
                &&& r[i] is Some && r[i]->0.alive && r[i]->0.pid == starts[m].1
                &&& m > 0 ==> i > f
                &&& exists|k: int|
                    0 <= k < sources.len() && (#[trigger] sources[k]).pid == starts[m].1
                        && sources[k].device == starts[m].2 && sources[k].label == r[i]->0.label
                        && sources[k].process == r[i]->0.process
            } by {
                let i = starts[m].0;
                if m == 0 {
                    assert(starts[m] == attachment(f, sources[0]));
                    assert(r[f] == next[f]);
                    assert(sources[0].pid == starts[m].1);
                } else {
                    assert(starts[m] == later[m - 1]);
                    assert(next[i] is None);
                    if i <= f {
                        assert(slots[i] is Some || i == f);
                    }
                    let k = choose|k: int|
                        0 <= k < rest.len() && (#[trigger] rest[k]).pid == starts[m].1
                            && rest[k].device == starts[m].2 && rest[k].label == r[i]->0.label
                            && rest[k].process == r[i]->0.process;
                    assert(sources[k + 1] == rest[k]);
                }
            }
            assert forall|m: int, n: int| 0 <= m < n < starts.len() implies (
            #[trigger] starts[m]).0 < (#[trigger] starts[n]).0 by {
                assert(starts[n] == later[n - 1]);
                if m > 0 {
                    assert(starts[m] == later[m - 1]);
                }
            }
            assert forall|i: int|
                0 <= i < slots.len() && (#[trigger] slots[i]) is None
                    && r[i] is Some implies exists|m: int|
                0 <= m < starts.len() && (#[trigger] starts[m]).0 == i by {
                if i == f {
                    assert(starts[0].0 == f);
                } else {
                    assert(next[i] is None);
                    let m = choose|m: int| 0 <= m < later.len() && (#[trigger] later[m]).0 == i;
                    assert(starts[m + 1] == later[m]);
                }
            }
        }
    }
}

/// On a vacant table the first source takes the first track, the second one the
/// next, and so on up to the reserved slot or the end of the table.
pub proof fn first_seating_follows_the_order(
    size: nat,
    sources: Seq<SourceView>,
    reserved: int,
    k: int,
)
    requires
        0 <= k < sources.len(),
        k < size,
        reserved < 0 || k < reserved,
    ensures
        ({
            let vacant = Seq::new(size, |i: int| None::<SlotView>);
            seated(vacant, sources, reserved, false).0[k] == Some(
                SlotView {
                    label: sources[k].label,
                    process: sources[k].process,
                    pid: sources[k].pid,
                    alive: true,
                },
            )
        }),
{
    let vacant = Seq::new(size, |i: int| None::<SlotView>);
    seating_goes_on_in_order(vacant, 0, sources, reserved, k);
}

proof fn seating_goes_on_in_order(
    slots: Seq<Option<SlotView>>,
    from: int,
    sources: Seq<SourceView>,
    reserved: int,
    k: int,
)
    requires
        0 <= from,
        0 <= k < sources.len(),
        from + k < slots.len(),
        reserved < 0 || from + k < reserved,
        forall|i: int| 0 <= i < from ==> (#[trigger] slots[i]) is Some,
        forall|i: int| from <= i < slots.len() ==> (#[trigger] slots[i]) is None,
    ensures
        seated(slots, sources, reserved, false).0[from + k] == Some(
            SlotView {
                label: sources[k].label,
                process: sources[k].process,
                pid: sources[k].pid,
                alive: true,
            },
        ),
    decreases sources.len(),
{
    free_found(slots, from);
    let next = slots.update(from, Some(seat(sources[0])));
    let rest = sources.skip(1);
    if k == 0 {
        seating_fills_vacant_slots(next, rest, reserved, false);
        assert(next[from] is Some);
    } else {
        assert(rest[k - 1] == sources[k]);
        seating_goes_on_in_order(next, from + 1, rest, reserved, k - 1);
    }
}

/// An application keeps its slot exactly as long as its executable is among those
/// that are there, whatever the case of its name and the number of its process; a
/// slot without a process is never vacated. The slots that are vacated are the ones
/// whose captures are stopped, each once and in order.
pub proof fn slots_are_vacated_by_name(slots: Seq<Option<SlotView>>, seen: Seq<SourceView>)
    ensures
        ({
            let (r, stop) = (released(slots, seen), gone_indices(slots, seen));
            &&& r.len() == slots.len()
            &&& forall|i: int|
                0 <= i < slots.len() ==> {
                    let kept = (#[trigger] slots[i]) is Some ==> {
                        ||| slots[i]->0.pid is None
                        ||| exists|k: int|
                            0 <= k < seen.len() && text::lower(#[trigger] seen[k].process)
                                == text::lower(slots[i]->0.process)
                    };
                    &&& kept ==> r[i] == slots[i] && !stop.contains(i)
                    &&& !kept ==> r[i] is None && stop.contains(i)
                }
            &&& forall|i: int| #[trigger] stop.contains(i) ==> 0 <= i < slots.len()
            &&& forall|m: int, n: int|
                0 <= m < n < stop.len() ==> #[trigger] stop[m] < #[trigger] stop[n]
        }),
{
    stops_follow_the_slots(slots, seen);
    let (r, stop) = (released(slots, seen), gone_indices(slots, seen));
    assert forall|i: int| 0 <= i < slots.len() implies {
        let kept = (#[trigger] slots[i]) is Some ==> {
            ||| slots[i]->0.pid is None
            ||| exists|k: int|
                0 <= k < seen.len() && text::lower(#[trigger] seen[k].process) == text::lower(
                    slots[i]->0.process,
                )
        };
        &&& kept ==> r[i] == slots[i] && !stop.contains(i)
        &&& !kept ==> r[i] is None && stop.contains(i)
    } by {
        assert(stop.contains(i) <==> 0 <= i < slots.len() && is_gone(slots[i], seen));
        if slots[i] is Some {
            let process = slots[i]->0.process;
            if exists|k: int|
                0 <= k < seen.len() && text::lower(#[trigger] seen[k].process) == text::lower(
                    process,
                ) {
                let k = choose|k: int|
                    0 <= k < seen.len() && text::lower(#[trigger] seen[k].process) == text::lower(
                        process,
                    );
                assert(same_process(seen[k].process, process));
            }
        }
    }
}

proof fn stops_follow_the_slots(slots: Seq<Option<SlotView>>, seen: Seq<SourceView>)
    ensures
        forall|i: int|
            #[trigger] gone_indices(slots, seen).contains(i) <==> 0 <= i < slots.len() && is_gone(
                slots[i],
                seen,
            ),
        forall|m: int, n: int|
            0 <= m < n < gone_indices(slots, seen).len() ==> #[trigger] gone_indices(slots, seen)[m]
                < #[trigger] gone_indices(slots, seen)[n],
    decreases slots.len(),
{
    if slots.len() > 0 {
        let before = gone_indices(slots.drop_last(), seen);
        let now = gone_indices(slots, seen);
        stops_follow_the_slots(slots.drop_last(), seen);
        assert forall|m: int| 0 <= m < before.len() implies 0 <= #[trigger] before[m] < slots.len()
            - 1 by {
            assert(before.contains(before[m]));
        }
        assert forall|i: int|
            #[trigger] now.contains(i) <==> 0 <= i < slots.len() && is_gone(slots[i], seen) by {
            if before.contains(i) {
                let m = choose|m: int| 0 <= m < before.len() && before[m] == i;
                assert(now[m] == i);
            }
            if i == slots.len() - 1 && is_gone(slots[i], seen) {
                assert(now[now.len() - 1] == i);
            }
            if now.contains(i) {
                let m = choose|m: int| 0 <= m < now.len() && now[m] == i;
                if m < before.len() {
                    assert(before[m] == i);
                }
            }
        }
    }
}

/// A reconciliation brings every application that is there to a track: each has
/// a slot afterwards, up to the case of its name, unless no slot before that of the
/// microphone is left.
pub proof fn reconciliation_leaves_nobody_out(
    slots: Seq<Option<SlotView>>,
    seen: Seq<SourceView>,
    mic_index: int,
    k: int,
)
    requires
        0 <= k < seen.len(),
        seen[k].pid is Some,
        0 <= mic_index < slots.len(),
    ensures
        ({
            let r = reconciled(slots, seen, mic_index);
            ||| exists|i: int|
                0 <= i < r.len() && (#[trigger] r[i]) is Some && text::lower(r[i]->0.process)
                    == text::lower(seen[k].process)
            ||| forall|i: int| 0 <= i < mic_index ==> (#[trigger] r[i]) is Some
        }),
{
    let r = reconciled(slots, seen, mic_index);
    let free = released(slots, seen);
    seating_leaves_nobody_out(free, seen, mic_index, true, k);
    seating_fills_vacant_slots(free, seen, mic_index, true);
    assert(r.len() == slots.len());
}

/// A slot is vacated at a reaping exactly where its capture has ended; the labels
/// that are reported are those of the vacated slots, in order.
pub proof fn reaping_takes_the_dead(
    slots: Seq<Option<SlotView>>,
    more: Seq<Option<SlotView>>,
    i: int,
)
    ensures
        reaped(slots).len() == slots.len(),
        0 <= i < slots.len() ==> reaped(slots)[i] == (match slots[i] {
            Some(slot) => if slot.alive {
                Some(slot)
            } else {
                None
            },
            None => None,
        }),
        dead_labels(slots + more) == dead_labels(slots) + dead_labels(more),
        slots.len() == 1 ==> dead_labels(slots) == (match slots[0] {
            Some(slot) => if slot.alive {
                Seq::empty()
            } else {
                seq![slot.label]
            },
            None => Seq::empty(),
        }),
    decreases more.len(),
{
    if slots.len() == 1 {
        assert(slots.drop_last() =~= Seq::<Option<SlotView>>::empty());
        assert(dead_labels(slots.drop_last()) =~= Seq::<Seq<char>>::empty());
        assert(dead_labels(slots) =~= (match slots[0] {
            Some(slot) => if slot.alive {
                Seq::empty()
            } else {
                seq![slot.label]
            },
            None => Seq::empty(),
        }));
    }
    if more.len() == 0 {
        assert(slots + more =~= slots);
        assert(dead_labels(slots) + dead_labels(more) =~= dead_labels(slots));
    } else {
        assert((slots + more).drop_last() =~= slots + more.drop_last());
        reaping_takes_the_dead(slots, more.drop_last(), i);
        assert(dead_labels(slots + more) =~= dead_labels(slots) + dead_labels(more));
    }
}

/// The tracks are labelled by their place: one that is held by the label of its
/// application, a vacant one by its own number, which no other vacant one has.
pub proof fn tracks_are_labelled_in_place(slots: Seq<Option<SlotView>>, i: int, j: int)
    requires
        0 <= i < slots.len(),
        0 <= j < slots.len(),
    ensures
        track_labels(slots).len() == slots.len(),
        slots[i] is Some ==> track_labels(slots)[i] == slots[i]->0.label,
        slots[i] is None ==> track_labels(slots)[i] == "(libre "@ + text::decimal(i as nat) + ")"@,
        i != j && slots[i] is None && slots[j] is None ==> track_labels(slots)[i] != track_labels(slots)[j],
{
    let (a, b) = (text::decimal(i as nat), text::decimal(j as nat));
    if slots[i] is None && slots[j] is None {
        text::decimal_denotes(i as nat);
        text::decimal_denotes(j as nat);
        reveal_strlit("(libre ");
        reveal_strlit(")");
        let (x, y) = (track_labels(slots)[i], track_labels(slots)[j]);
        if x == y {
            assert(x.subrange(7, x.len() - 1) =~= a);
            assert(y.subrange(7, y.len() - 1) =~= b);
        }
    }
}

/// The view of the table leaves nothing out: there is a place for each slot, and two slots
/// with the same view have the same label, executable, process and state.
pub proof fn views_tell_slots_apart(table: SlotMap, i: int, slot: Slot)
    requires
        0 <= i < table.slots@.len(),
        table@[i] == Some(slot@),
    ensures
        table@.len() == table.slots@.len(),
        table.slots@[i] matches Some(held) && held.label@ == slot.label@ && held.process@
            == slot.process@ && held.pid == slot.pid && held.alive == slot.alive,
{
    assert(table@[i] == slot_view(table.slots@[i]));
}

/// Two captures to start with the same view go to the same slot and capture the same
/// process and device.
pub proof fn views_tell_starts_apart(s: Seq<Attachment>, i: int, other: Attachment)
    requires
        0 <= i < s.len(),
        attachment_views(s)[i] == other@,
    ensures
        attachment_views(s).len() == s.len(),
        s[i].index == other.index,
        s[i].pid == other.pid,
        s[i].device is Some <==> other.device is Some,
        s[i].device is Some ==> s[i].device->0@ == other.device->0@,
{
    assert(attachment_views(s)[i] == s[i]@);
}

} // verus!
