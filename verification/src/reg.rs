//! The wire registry: every named, typed channel that crosses the network —
//! replicated pools, event channels, the input channel — in one table with
//! one hash keyspace and one collision guard.

use vstd::prelude::*;

use crate::text::{copy_bytes, text_eq, utf8};

verus! {

/// First event tag the user channels may take; lower tags are internal.
pub const EVENT_USER_BASE: u16 = 16;

/// FNV-1a over the bytes, 32 bits wide.
pub open spec fn fnv32(bytes: Seq<u8>) -> u32
    decreases bytes.len(),
{
    if bytes.len() == 0 {
        0x811c_9dc5
    } else {
        (fnv32(bytes.drop_last()) ^ (bytes.last() as u32)).wrapping_mul(0x0100_0193)
    }
}

/// The wire key of a channel name: its hash folded to 16 bits.
pub open spec fn key_of(name: Seq<char>) -> u16 {
    let h = fnv32(utf8(name));
    (h ^ (h >> 16)) as u16
}

/// The wire tag of an event channel.
pub open spec fn tag_of(name: Seq<char>) -> u16 {
    (EVENT_USER_BASE + key_of(name) % 65519u16) as u16
}

/// Stable 16-bit wire identity for a named channel (pool, event, or the
/// input channel). Everything is addressed on the wire by this key, never by
/// registration order.
pub fn pool_key(name: &str) -> (r: u16)
    ensures
        r == key_of(name@),
{
    let bytes: &[u8] = name.as_bytes();
    let mut h: u32 = 0x811c_9dc5;
    let mut i: usize = 0;
    assert(bytes@.take(0) =~= Seq::<u8>::empty());
    while i < bytes.len()
        invariant
            i <= bytes@.len(),
            h == fnv32(bytes@.take(i as int)),
        decreases bytes@.len() - i,
    {
        proof {
            let next = bytes@.take(i + 1);
            assert(next.drop_last() =~= bytes@.take(i as int));
        }
        h = (h ^ (bytes[i] as u32)).wrapping_mul(0x0100_0193);
        i += 1;
    }
    assert(bytes@.take(i as int) =~= bytes@);
    (h ^ (h >> 16)) as u16
}

/// Stable wire tag for a named event channel, in the user-tag space, so it
/// can't collide with internal frame types.
pub fn event_tag(name: &str) -> (r: u16)
    ensures
        r == tag_of(name@),
        r >= EVENT_USER_BASE,
{
    let span: u16 = 65519;
    EVENT_USER_BASE + pool_key(name) % span
}

/// What a registry entry is — three API views (sync, send, set) over one
/// table.
#[derive(Clone, Copy, PartialEq, Eq, Debug, Structural)]
pub enum WireKind {
    Pool,
    Event,
    Input,
}

impl WireKind {
    /// The kind's byte in the handshake schema.
    pub open spec fn byte_of(self) -> u8 {
        match self {
            WireKind::Pool => 112,
            WireKind::Event => 101,
            WireKind::Input => 105,
        }
    }

    /// The kind's byte in the handshake schema: `p`, `e` or `i`.
    pub fn byte(self) -> (r: u8)
        ensures
            r == self.byte_of(),
    {
        match self {
            WireKind::Pool => 112,
            WireKind::Event => 101,
            WireKind::Input => 105,
        }
    }
}

/// One row of the handshake schema: a channel's kind byte, name, value size
/// and layout hash.
#[derive(Debug)]
pub struct SchemaRow {
    pub kind: u8,
    pub name: String,
    pub size: usize,
    pub hash: u64,
}

/// A schema row as plain values.
#[verifier::ext_equal]
pub struct RowView {
    pub kind: u8,
    pub name: Seq<char>,
    pub size: nat,
    pub hash: u64,
}

impl View for SchemaRow {
    type V = RowView;

    open spec fn view(&self) -> RowView {
        RowView { kind: self.kind, name: self.name@, size: self.size as nat, hash: self.hash }
    }
}

/// Schema rows as plain values.
pub open spec fn row_views(rows: Seq<SchemaRow>) -> Seq<RowView> {
    rows.map_values(|r: SchemaRow| r@)
}

/// One registered channel.
pub struct WireEntry {
    pub kind: WireKind,
    pub name: String,
    pub size: usize,
    pub hash: u64,
}

/// The schema row of a channel.
pub open spec fn row_of(e: WireEntry) -> RowView {
    RowView { kind: e.kind.byte_of(), name: e.name@, size: e.size as nat, hash: e.hash }
}

/// Why a registration is refused; the name is the channel already there.
#[derive(Debug)]
pub enum Clash {
    /// A second input channel: there is one per connection.
    SecondInput(String),
    /// The name is taken by a channel of another kind or size.
    Mismatch,
    /// Two names share a wire key.
    Key(String),
    /// Two event names share a wire tag.
    Tag(String),
}

/// The first entry a test picks out, if any.
pub open spec fn first_such(
    entries: Seq<WireEntry>,
    f: spec_fn(WireEntry) -> bool,
) -> Option<WireEntry>
    decreases entries.len(),
{
    if entries.len() == 0 {
        None
    } else if f(entries[0]) {
        Some(entries[0])
    } else {
        first_such(entries.drop_first(), f)
    }
}

/// Passes the input channel.
pub open spec fn is_input() -> spec_fn(WireEntry) -> bool {
    |e: WireEntry| e.kind == WireKind::Input
}

/// Passes the channels under a key.
pub open spec fn has_key(key: u16) -> spec_fn(WireEntry) -> bool {
    |e: WireEntry| key_of(e.name@) == key
}

/// Passes the event channels under a tag.
pub open spec fn has_tag(tag: u16) -> spec_fn(WireEntry) -> bool {
    |e: WireEntry| e.kind == WireKind::Event && tag_of(e.name@) == tag
}

/// What stands against a registration.
pub open spec fn clash_of(
    entries: Seq<WireEntry>,
    kind: WireKind,
    name: Seq<char>,
    size: usize,
) -> Option<ClashView> {
    let input = first_such(entries, is_input());
    let keyed = first_such(entries, has_key(key_of(name)));
    let tagged = first_such(entries, has_tag(tag_of(name)));
    if kind == WireKind::Input && input is Some {
        Some(ClashView::SecondInput(input->0.name@))
    } else if keyed is Some {
        if same_event(keyed->0, kind, name, size) {
            None
        } else if keyed->0.name@ == name {
            Some(ClashView::Mismatch)
        } else {
            Some(ClashView::Key(keyed->0.name@))
        }
    } else if kind == WireKind::Event && tagged is Some {
        Some(ClashView::Tag(tagged->0.name@))
    } else {
        None
    }
}

/// A clash as plain values.
#[verifier::ext_equal]
pub enum ClashView {
    SecondInput(Seq<char>),
    Mismatch,
    Key(Seq<char>),
    Tag(Seq<char>),
}

impl View for Clash {
    type V = ClashView;

    open spec fn view(&self) -> ClashView {
        match self {
            Clash::SecondInput(n) => ClashView::SecondInput(n@),
            Clash::Mismatch => ClashView::Mismatch,
            Clash::Key(n) => ClashView::Key(n@),
            Clash::Tag(n) => ClashView::Tag(n@),
        }
    }
}

/// Whether a registration repeats an event channel that is there: the setup
/// helper and the task may both grab it, and share the tag.
pub open spec fn same_event(e: WireEntry, kind: WireKind, name: Seq<char>, size: usize) -> bool {
    e.kind == WireKind::Event && kind == WireKind::Event && e.name@ == name && e.size == size
}

/// The registry of everything that crosses the wire. The connection
/// handshake compares it on both ends, so a disagreement on a name, kind,
/// size or layout fails the connection instead of mis-delivering.
pub struct WireReg {
    entries: Vec<WireEntry>,
}

impl View for WireReg {
    type V = Seq<WireEntry>;

    closed spec fn view(&self) -> Seq<WireEntry> {
        self.entries@
    }
}

impl WireReg {
    /// An empty registry.
    pub fn new() -> (r: Self)
        ensures
            r@ == Seq::<WireEntry>::empty(),
    {
        WireReg { entries: Vec::new() }
    }

    /// Position of the first input channel.
    fn find_input(&self) -> (r: Option<usize>)
        ensures
            match r {
                Some(i) => i < self@.len() && first_such(self@, is_input()) == Some(
                    self@[i as int],
                ),
                None => first_such(self@, is_input()) is None,
            },
    {
        let mut i: usize = 0;
        assert(self@.skip(0) =~= self@);
        while i < self.entries.len()
            invariant
                i <= self@.len(),
                first_such(self@, is_input()) == first_such(self@.skip(i as int), is_input()),
            decreases self@.len() - i,
        {
            assert(self@.skip(i as int).drop_first() =~= self@.skip(i + 1));
            if self.entries[i].kind == WireKind::Input {
                return Some(i);
            }
            i += 1;
        }
        None
    }

    /// Position of the first channel under a key.
    fn find_key(&self, key: u16) -> (r: Option<usize>)
        ensures
            match r {
                Some(i) => i < self@.len() && first_such(self@, has_key(key)) == Some(
                    self@[i as int],
                ),
                None => first_such(self@, has_key(key)) is None,
            },
    {
        let mut i: usize = 0;
        assert(self@.skip(0) =~= self@);
        while i < self.entries.len()
            invariant
                i <= self@.len(),
                first_such(self@, has_key(key)) == first_such(self@.skip(i as int), has_key(key)),
            decreases self@.len() - i,
        {
            assert(self@.skip(i as int).drop_first() =~= self@.skip(i + 1));
            if pool_key(self.entries[i].name.as_str()) == key {
                return Some(i);
            }
            i += 1;
        }
        None
    }

    /// Position of the first event channel under a tag.
    fn find_tag(&self, tag: u16) -> (r: Option<usize>)
        ensures
            match r {
                Some(i) => i < self@.len() && first_such(self@, has_tag(tag)) == Some(
                    self@[i as int],
                ),
                None => first_such(self@, has_tag(tag)) is None,
            },
    {
        let mut i: usize = 0;
        assert(self@.skip(0) =~= self@);
        while i < self.entries.len()
            invariant
                i <= self@.len(),
                first_such(self@, has_tag(tag)) == first_such(self@.skip(i as int), has_tag(tag)),
            decreases self@.len() - i,
        {
            assert(self@.skip(i as int).drop_first() =~= self@.skip(i + 1));
            if self.entries[i].kind == WireKind::Event && event_tag(
                self.entries[i].name.as_str(),
            ) == tag {
                return Some(i);
            }
            i += 1;
        }
        None
    }

    /// What stands against registering this channel, if anything.
    pub fn clash(&self, kind: WireKind, name: &str, size: usize) -> (r: Option<Clash>)
        ensures
            match r {
                Some(c) => clash_of(self@, kind, name@, size) == Some(c@),
                None => clash_of(self@, kind, name@, size) is None,
            },
    {
        if kind == WireKind::Input {
            if let Some(i) = self.find_input() {
                return Some(Clash::SecondInput(self.entries[i].name.clone()));
            }
        }
        if let Some(i) = self.find_key(pool_key(name)) {
            let e: &WireEntry = &self.entries[i];
            let same_name: bool = text_eq(e.name.as_str(), name);
            if e.kind == WireKind::Event && kind == WireKind::Event && same_name && e.size
                == size {
                return None;
            }
            if same_name {
                return Some(Clash::Mismatch);
            }
            return Some(Clash::Key(e.name.clone()));
        }
        // Two distinct keys can share a tag across the span boundary only.
        if kind == WireKind::Event {
            if let Some(i) = self.find_tag(event_tag(name)) {
                return Some(Clash::Tag(self.entries[i].name.clone()));
            }
        }
        None
    }

    /// Add a channel nothing stands against. Repeating an event channel
    /// changes nothing.
    pub fn register(&mut self, kind: WireKind, name: &str, size: usize, hash: u64)
        requires
            clash_of(old(self)@, kind, name@, size) is None,
        ensures
            first_such(old(self)@, has_key(key_of(name@))) is Some ==> final(self)@ == old(self)@,
            first_such(old(self)@, has_key(key_of(name@))) is None ==> {
                &&& final(self)@.len() == old(self)@.len() + 1
                &&& final(self)@.drop_last() == old(self)@
                &&& final(self)@.last().kind == kind
                &&& final(self)@.last().name@ == name@
                &&& final(self)@.last().size == size
                &&& final(self)@.last().hash == hash
            },
    {
        if self.find_key(pool_key(name)).is_some() {
            return;
        }
        self.entries.push(WireEntry { kind, name: name.to_owned(), size, hash });
        assert(self@.drop_last() =~= old(self)@);
    }

    /// The handshake schema: every channel, in registration order.
    pub fn schema(&self) -> (r: Vec<SchemaRow>)
        ensures
            row_views(r@) == self@.map_values(|e: WireEntry| row_of(e)),
    {
        let mut out: Vec<SchemaRow> = Vec::new();
        let mut i: usize = 0;
        while i < self.entries.len()
            invariant
                i <= self@.len(),
                out@.len() == i,
                forall|j: int| 0 <= j < i ==> (#[trigger] out@[j])@ == row_of(self@[j]),
            decreases self@.len() - i,
        {
            let e: &WireEntry = &self.entries[i];
            out.push(
                SchemaRow {
                    kind: e.kind.byte(),
                    name: e.name.clone(),
                    size: e.size,
                    hash: e.hash,
                },
            );
            i += 1;
        }
        assert(row_views(out@) =~= self@.map_values(|e: WireEntry| row_of(e)));
        out
    }
}

impl Default for WireReg {
    fn default() -> (r: Self)
        ensures
            r@ == Seq::<WireEntry>::empty(),
    {
        WireReg::new()
    }
}

/// Keys in the registry identify their channel.
pub open spec fn keys_distinct(entries: Seq<WireEntry>) -> bool {
    forall|i: int, j: int|
        0 <= i < j < entries.len() ==> key_of((#[trigger] entries[i]).name@) != key_of(
            (#[trigger] entries[j]).name@,
        )
}

/// Event tags in the registry identify their channel.
pub open spec fn tags_distinct(entries: Seq<WireEntry>) -> bool {
    forall|i: int, j: int|
        0 <= i < j < entries.len() && (#[trigger] entries[i]).kind == WireKind::Event && (
        #[trigger] entries[j]).kind == WireKind::Event ==> tag_of(entries[i].name@) != tag_of(
            entries[j].name@,
        )
}

/// The registry holds at most one input channel.
pub open spec fn one_input(entries: Seq<WireEntry>) -> bool {
    forall|i: int, j: int|
        0 <= i < j < entries.len() ==> !((#[trigger] entries[i]).kind == WireKind::Input && (
        #[trigger] entries[j]).kind == WireKind::Input)
}

/// A test that finds nothing passes nothing.
proof fn first_such_none(entries: Seq<WireEntry>, f: spec_fn(WireEntry) -> bool)
    ensures
        first_such(entries, f) is None <==> forall|i: int|
            0 <= i < entries.len() ==> !f(#[trigger] entries[i]),
    decreases entries.len(),
{
    if entries.len() > 0 {
        let rest = entries.drop_first();
        first_such_none(rest, f);
        if !f(entries[0]) {
            if forall|i: int| 0 <= i < rest.len() ==> !f(#[trigger] rest[i]) {
                assert forall|i: int| 0 <= i < entries.len() implies !f(#[trigger] entries[i]) by {
                    if i > 0 {
                        assert(rest[i - 1] == entries[i]);
                    }
                }
            } else {
                let i = choose|i: int| 0 <= i < rest.len() && f(#[trigger] rest[i]);
                assert(f(entries[i + 1]));
            }
        }
    }
}

/// A registration nothing stands against keeps every key, every event tag
/// and the input channel unambiguous.
pub proof fn registration_keeps_channels_distinct(
    entries: Seq<WireEntry>,
    e: WireEntry,
)
    requires
        keys_distinct(entries),
        tags_distinct(entries),
        one_input(entries),
        clash_of(entries, e.kind, e.name@, e.size) is None,
        first_such(entries, has_key(key_of(e.name@))) is None,
    ensures
        keys_distinct(entries.push(e)),
        tags_distinct(entries.push(e)),
        one_input(entries.push(e)),
{
    first_such_none(entries, has_key(key_of(e.name@)));
    first_such_none(entries, has_tag(tag_of(e.name@)));
    first_such_none(entries, is_input());
    let now = entries.push(e);
    assert forall|i: int, j: int| 0 <= i < j < now.len() implies key_of((#[trigger] now[i]).name@)
        != key_of((#[trigger] now[j]).name@) by {
        if j == entries.len() {
            assert(!has_key(key_of(e.name@))(entries[i]));
        }
    }
    assert forall|i: int, j: int|
        0 <= i < j < now.len() && (#[trigger] now[i]).kind == WireKind::Event && (
        #[trigger] now[j]).kind == WireKind::Event implies tag_of(now[i].name@) != tag_of(
        now[j].name@,
    ) by {
        if j == entries.len() {
            assert(!has_tag(tag_of(e.name@))(entries[i]));
        }
    }
    assert forall|i: int, j: int| 0 <= i < j < now.len() implies !((#[trigger] now[i]).kind
        == WireKind::Input && (#[trigger] now[j]).kind == WireKind::Input) by {
        if j == entries.len() {
            assert(e.kind == WireKind::Input ==> !is_input()(entries[i]));
        }
    }
}

/// One queued reliable event: its wire tag and payload.
pub struct OutEvent {
    pub tag: u16,
    pub payload: Vec<u8>,
}

/// Client-side reliable-event outbox: senders push tagged frames; the net
/// task drains it and sends once connected.
pub struct Outbox {
    events: Vec<OutEvent>,
}

/// Queued events as plain values.
pub open spec fn event_views(events: Seq<OutEvent>) -> Seq<(u16, Seq<u8>)> {
    events.map_values(|e: OutEvent| (e.tag, e.payload@))
}

impl View for Outbox {
    type V = Seq<(u16, Seq<u8>)>;

    closed spec fn view(&self) -> Seq<(u16, Seq<u8>)> {
        event_views(self.events@)
    }
}

impl Outbox {
    /// An empty outbox.
    pub fn new() -> (r: Self)
        ensures
            r@ == Seq::<(u16, Seq<u8>)>::empty(),
    {
        let r = Outbox { events: Vec::new() };
        assert(r@ =~= Seq::<(u16, Seq<u8>)>::empty());
        r
    }

    /// Queue an event.
    pub fn send(&mut self, ty: u16, payload: &[u8])
        ensures
            final(self)@ == old(self)@.push((ty, payload@)),
    {
        let payload: Vec<u8> = copy_bytes(payload);
        self.events.push(OutEvent { tag: ty, payload });
        assert(self@ =~= old(self)@.push((ty, payload@)));
    }

    /// Take everything queued, in order.
    pub fn drain(&mut self) -> (r: Vec<OutEvent>)
        ensures
            event_views(r@) == old(self)@,
            final(self)@ == Seq::<(u16, Seq<u8>)>::empty(),
    {
        let mut out: Vec<OutEvent> = Vec::new();
        std::mem::swap(&mut out, &mut self.events);
        assert(self@ =~= Seq::<(u16, Seq<u8>)>::empty());
        out
    }
}

impl Default for Outbox {
    fn default() -> (r: Self)
        ensures
            r@ == Seq::<(u16, Seq<u8>)>::empty(),
    {
        Outbox::new()
    }
}

/// Searching finds the first entry that passes, and nothing only where none
/// does.
pub proof fn the_first_such_is_found(entries: Seq<WireEntry>, f: spec_fn(WireEntry) -> bool)
    ensures
        first_such(entries, f) matches Some(e) ==> exists|i: int|
            0 <= i < entries.len() && #[trigger] entries[i] == e && f(e) && forall|j: int|
                0 <= j < i ==> !f(#[trigger] entries[j]),
        first_such(entries, f) is None ==> forall|j: int|
            0 <= j < entries.len() ==> !f(#[trigger] entries[j]),
    decreases entries.len(),
{
    if entries.len() > 0 {
        if f(entries[0]) {
            assert(entries[0] == first_such(entries, f)->0);
        } else {
            let rest = entries.drop_first();
            the_first_such_is_found(rest, f);
            if let Some(e) = first_such(entries, f) {
                let i = choose|i: int|
                    0 <= i < rest.len() && #[trigger] rest[i] == e && f(e) && forall|j: int|
                        0 <= j < i ==> !f(#[trigger] rest[j]);
                assert(entries[i + 1] == e);
                assert forall|j: int| 0 <= j < i + 1 implies !f(#[trigger] entries[j]) by {
                    if j > 0 {
                        assert(!f(rest[j - 1]));
                    }
                }
            } else {
                assert forall|j: int| 0 <= j < entries.len() implies !f(#[trigger] entries[j]) by {
                    if j > 0 {
                        assert(!f(rest[j - 1]));
                    }
                }
            }
        }
    }
}

/// A registration is refused exactly where something is in its way: an input
/// where one stands already, a name whose key stands already for anything but
/// the same event once more, an event whose tag stands already for another.
pub proof fn only_what_is_in_the_way_refuses(
    entries: Seq<WireEntry>,
    kind: WireKind,
    name: Seq<char>,
    size: usize,
)
    requires
        keys_distinct(entries),
        tags_distinct(entries),
    ensures
        ({
            let clash = clash_of(entries, kind, name, size);
            let second = kind == WireKind::Input && exists|i: int|
                0 <= i < entries.len() && (#[trigger] entries[i]).kind == WireKind::Input;
            let taken = exists|i: int|
                0 <= i < entries.len() && key_of((#[trigger] entries[i]).name@) == key_of(name);
            let again = exists|i: int|
                0 <= i < entries.len() && (#[trigger] entries[i]).name@ == name && entries[i].kind
                    == WireKind::Event && kind == WireKind::Event && entries[i].size == size;
            let tagged = kind == WireKind::Event && exists|i: int|
                0 <= i < entries.len() && (#[trigger] entries[i]).kind == WireKind::Event && tag_of(
                    entries[i].name@,
                ) == tag_of(name);
            &&& second <==> clash is Some && clash->0 is SecondInput
            &&& clash is None <==> !second && (again || !taken && !tagged)
            &&& clash is Some && clash->0 is Mismatch <==> !second && !again && exists|i: int|
                0 <= i < entries.len() && (#[trigger] entries[i]).name@ == name
            &&& clash is Some && clash->0 is Tag <==> !second && !taken && tagged
        }),
{
    let input = first_such(entries, is_input());
    let keyed = first_such(entries, has_key(key_of(name)));
    let tagged = first_such(entries, has_tag(tag_of(name)));
    the_first_such_is_found(entries, is_input());
    the_first_such_is_found(entries, has_key(key_of(name)));
    the_first_such_is_found(entries, has_tag(tag_of(name)));
    assert forall|i: int| 0 <= i < entries.len() implies is_input()(#[trigger] entries[i]) == (
    entries[i].kind == WireKind::Input) && has_key(key_of(name))(entries[i]) == (key_of(
        entries[i].name@,
    ) == key_of(name)) && has_tag(tag_of(name))(entries[i]) == (entries[i].kind == WireKind::Event
        && tag_of(entries[i].name@) == tag_of(name)) by {}
    if let Some(e) = keyed {
        let k = choose|i: int|
            0 <= i < entries.len() && #[trigger] entries[i] == e && has_key(key_of(name))(e)
                && forall|j: int| 0 <= j < i ==> !has_key(key_of(name))(#[trigger] entries[j]);
        assert(entries[k] == e);
        assert forall|i: int|
            0 <= i < entries.len() && key_of((#[trigger] entries[i]).name@) == key_of(
                name,
            ) implies i == k by {
            if i < k {
                assert(key_of(entries[i].name@) != key_of(entries[k].name@));
            } else if k < i {
                assert(key_of(entries[k].name@) != key_of(entries[i].name@));
            }
        }
    }
}

/// Event tags stay clear of the sixteen frames kept for the protocol, and
/// the same name has the same tag on either end.
pub proof fn tags_stay_clear_of_the_protocol(name: Seq<char>)
    ensures
        tag_of(name) >= 16,
        tag_of(name) == 16 + key_of(name) as int % 65519,
{
}

/// The hash behind the keys is 32-bit FNV-1a.
pub proof fn keys_hash_by_fnv(bytes: Seq<u8>, b: u8)
    ensures
        fnv32(Seq::empty()) == 0x811c_9dc5,
        fnv32(bytes.push(b)) == (fnv32(bytes) ^ b as u32).wrapping_mul(0x0100_0193),
{
    assert(bytes.push(b).drop_last() =~= bytes);
}

/// A registration is listed under its kind's letter with its name, width and
/// hash: `p` for pools, `e` for events, `i` for inputs.
pub proof fn registrations_are_listed_by_letter(e: WireEntry)
    ensures
        e.kind == WireKind::Pool ==> row_of(e).kind == 112,
        e.kind == WireKind::Event ==> row_of(e).kind == 101,
        e.kind == WireKind::Input ==> row_of(e).kind == 105,
        row_of(e).name == e.name@,
        row_of(e).size == e.size,
        row_of(e).hash == e.hash,
{
}

/// An event goes out under its tag with its payload, in the order queued.
pub proof fn events_go_out_under_their_tag(events: Seq<OutEvent>, k: int)
    requires
        0 <= k < events.len(),
    ensures
        event_views(events).len() == events.len(),
        event_views(events)[k].0 == events[k].tag,
        event_views(events)[k].1 == events[k].payload@,
{
}

} // verus!
