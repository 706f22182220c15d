//! Hot-reloaded mods: what to load when, and what to tell the author.
//!
//! A mod is a shared library whose init registers tasks and pools like
//! `main` does. The file's change time says when to load it; an ABI word —
//! the version mixed with a hash of this build's kernel type — says whether
//! it may run, and when it may not, the two build manifests are compared so
//! the author sees which knob is off.

use vstd::prelude::*;
use vstd::string::StrSliceExecFns;
use vstd::string::StringExecFns;

use crate::text::text_eq;

verus! {

/// Bump when ABI-relevant surfaces change.
pub const MOD_ABI: u64 = 0x706d_0004;

/// The full ABI word a mod must echo: the version constant mixed with a
/// hash of the build's kernel type.
pub fn mod_abi(type_hash: u64) -> (r: u64)
    ensures
        r == MOD_ABI ^ type_hash,
{
    MOD_ABI ^ type_hash
}

// --- manifests --------------------------------------------------------------

/// First place of a character at or after `k`, or the end.
pub open spec fn find_from(s: Seq<char>, c: char, k: int) -> int
    decreases s.len() - k,
{
    if k >= s.len() || s[k] == c {
        k
    } else {
        find_from(s, c, k + 1)
    }
}

/// A line without the carriage return of its line end.
pub open spec fn chop(line: Seq<char>) -> Seq<char> {
    if line.len() > 0 && line.last() == '\r' {
        line.drop_last()
    } else {
        line
    }
}

/// A line's key and value around its first `=`; nothing without one.
pub open spec fn split_line(line: Seq<char>) -> Option<(Seq<char>, Seq<char>)> {
    let q = find_from(line, '=', 0);
    if q < line.len() {
        Some((line.take(q), line.skip(q + 1)))
    } else {
        None
    }
}

/// A text's first line.
pub open spec fn first_line(s: Seq<char>) -> Seq<char> {
    let e = find_from(s, '\n', 0);
    if e < s.len() {
        chop(s.take(e))
    } else {
        s
    }
}

/// A text after its first line.
pub open spec fn other_lines(s: Seq<char>) -> Seq<char> {
    let e = find_from(s, '\n', 0);
    if e < s.len() {
        s.skip(e + 1)
    } else {
        Seq::empty()
    }
}

/// The keys and values of a manifest, in order; lines without `=` are
/// skipped.
pub open spec fn pairs(s: Seq<char>) -> Seq<(Seq<char>, Seq<char>)>
    decreases s.len(),
{
    if s.len() == 0 {
        Seq::empty()
    } else {
        proof {
            find_bounds(s, '\n', 0);
        }
        let rest = pairs(other_lines(s));
        match split_line(first_line(s)) {
            Some(p) => seq![p] + rest,
            None => rest,
        }
    }
}

/// A search ends at a match or at the end.
pub proof fn find_bounds(s: Seq<char>, c: char, k: int)
    requires
        0 <= k <= s.len(),
    ensures
        k <= find_from(s, c, k) <= s.len(),
        find_from(s, c, k) < s.len() ==> s[find_from(s, c, k)] == c,
    decreases s.len() - k,
{
    if k < s.len() && s[k] != c {
        find_bounds(s, c, k + 1);
    }
}

/// One `key=value` line.
pub struct ManifestRow {
    pub key: String,
    pub value: String,
}

/// Rows as plain pairs.
pub open spec fn row_pairs(rows: Seq<ManifestRow>) -> Seq<(Seq<char>, Seq<char>)> {
    rows.map_values(|r: ManifestRow| (r.key@, r.value@))
}

fn find_char(s: &str, c: char, from: usize) -> (r: usize)
    requires
        from <= s@.len(),
    ensures
        r == find_from(s@, c, from as int),
        from <= r <= s@.len(),
{
    let n: usize = s.unicode_len();
    let mut i: usize = from;
    while i < n && s.get_char(i) != c
        invariant
            from <= i <= n,
            n == s@.len(),
            find_from(s@, c, from as int) == find_from(s@, c, i as int),
        decreases n - i,
    {
        i += 1;
    }
    i
}

/// Part of a text.
fn part(s: &str, from: usize, to: usize) -> (r: String)
    requires
        from <= to <= s@.len(),
    ensures
        r@ == s@.subrange(from as int, to as int),
{
    s.substring_char(from, to).to_owned()
}

/// The keys and values of a manifest, in declared order.
pub fn parse_manifest(s: &str) -> (r: Vec<ManifestRow>)
    ensures
        row_pairs(r@) == pairs(s@),
{
    let mut out: Vec<ManifestRow> = Vec::new();
    let n: usize = s.unicode_len();
    let mut at: usize = 0;
    assert(s@.skip(0) =~= s@);
    assert(row_pairs(out@) + pairs(s@) =~= pairs(s@));
    while at < n
        invariant
            at <= n,
            n == s@.len(),
            row_pairs(out@) + pairs(s@.skip(at as int)) == pairs(s@),
        decreases n - at,
    {
        let ghost rest = s@.skip(at as int);
        let ghost made = row_pairs(out@);
        let end: usize = find_char(s, '\n', at);
        proof {
            find_shift(s@, '\n', at as int, at as int);
            find_bounds(rest, '\n', 0);
        }
        let mut stop: usize = end;
        if end < n && end > at && s.get_char(end - 1) == '\r' {
            stop = end - 1;
        }
        let line: String = part(s, at, stop);
        proof {
            let e = find_from(rest, '\n', 0);
            assert(e == end - at);
            if e < rest.len() {
                assert(rest.take(e) =~= s@.subrange(at as int, end as int));
            }
            assert(line@ =~= first_line(rest));
        }
        let m: usize = line.as_str().unicode_len();
        let q: usize = find_char(line.as_str(), '=', 0);
        let next: usize = if end < n {
            end + 1
        } else {
            n
        };
        proof {
            if end < n {
                assert(s@.skip(next as int) =~= rest.skip(end - at + 1));
            } else {
                assert(s@.skip(next as int) =~= Seq::<char>::empty());
            }
            assert(s@.skip(next as int) =~= other_lines(rest));
        }
        if q < m {
            let row = ManifestRow {
                key: part(line.as_str(), 0, q),
                value: part(line.as_str(), q + 1, m),
            };
            proof {
                assert(row.key@ =~= line@.take(q as int));
                assert(row.value@ =~= line@.skip(q + 1));
                let later = pairs(s@.skip(next as int));
                assert(pairs(rest) == seq![(row.key@, row.value@)] + later);
                assert(row_pairs(out@.push(row)) =~= made.push((row.key@, row.value@)));
                assert(made.push((row.key@, row.value@)) + later =~= made + pairs(rest));
            }
            out.push(row);
        }
        at = next;
    }
    assert(s@.skip(n as int) =~= Seq::<char>::empty());
    assert(row_pairs(out@) =~= pairs(s@));
    out
}

/// Searching a text from a place is searching its rest.
proof fn find_shift(s: Seq<char>, c: char, at: int, k: int)
    requires
        0 <= at <= k <= s.len(),
    ensures
        find_from(s, c, k) == at + find_from(s.skip(at), c, k - at),
    decreases s.len() - k,
{
    if k < s.len() {
        assert(s.skip(at)[k - at] == s[k]);
        if s[k] != c {
            find_shift(s, c, at, k + 1);
        }
    }
}

/// This build's manifest as rows, in declared order.
pub fn build_manifest(manifest: &str) -> (r: Vec<ManifestRow>)
    ensures
        row_pairs(r@) == pairs(manifest@),
{
    parse_manifest(manifest)
}

/// The value of a key, or `<absent>`.
pub open spec fn value_of(rows: Seq<(Seq<char>, Seq<char>)>, key: Seq<char>) -> Seq<char>
    decreases rows.len(),
{
    if rows.len() == 0 {
        "<absent>"@
    } else if rows[0].0 == key {
        rows[0].1
    } else {
        value_of(rows.drop_first(), key)
    }
}

/// `n` blanks.
pub open spec fn blanks(n: int) -> Seq<char>
    decreases n,
{
    if n <= 0 {
        Seq::empty()
    } else {
        blanks(n - 1) + " "@
    }
}

/// A text filled up with blanks to a width.
pub open spec fn padded(s: Seq<char>, width: int) -> Seq<char> {
    s + blanks(width - s.len())
}

/// One line of the comparison.
pub open spec fn diff_line(key: Seq<char>, ours: Seq<char>, theirs: Seq<char>) -> Seq<char> {
    "    "@ + padded(key, 8) + " host "@ + padded(ours, 28) + " mod "@ + theirs + if theirs
        == ours {
        "\n"@
    } else {
        "   <- mismatch\n"@
    }
}

/// The comparison of the first `n` host lines with a mod's manifest.
pub open spec fn diff_upto(
    host: Seq<(Seq<char>, Seq<char>)>,
    mods: Seq<(Seq<char>, Seq<char>)>,
    n: int,
) -> Seq<char>
    decreases n,
{
    if n <= 0 {
        Seq::empty()
    } else {
        diff_upto(host, mods, n - 1) + diff_line(
            host[n - 1].0,
            host[n - 1].1,
            value_of(mods, host[n - 1].0),
        )
    }
}

/// The comparison of two manifests.
pub open spec fn diff_text(host: Seq<char>, mods: Seq<char>) -> Seq<char> {
    diff_upto(pairs(host), pairs(mods), pairs(host).len() as int)
}

/// Append a text filled up with blanks to a width.
fn push_padded(out: &mut String, s: &str, width: usize)
    ensures
        final(out)@ == old(out)@ + padded(s@, width as int),
{
    let ghost start = out@;
    out.append(s);
    let n: usize = s.unicode_len();
    let mut k: usize = n;
    assert(out@ =~= start + s@ + blanks(0));
    while k < width
        invariant
            n <= k,
            n == s@.len(),
            n >= width ==> k == n,
            n < width ==> k <= width,
            out@ == start + s@ + blanks(k - n),
        decreases width - k,
    {
        out.append(" ");
        assert(out@ =~= start + s@ + (blanks(k - n) + " "@));
        k += 1;
    }
    assert(blanks(k - n) == blanks(width - s@.len()));
    assert(out@ =~= start + padded(s@, width as int));
}

fn lookup(rows: &Vec<ManifestRow>, key: &str) -> (r: String)
    ensures
        r@ == value_of(row_pairs(rows@), key@),
{
    let ghost all = row_pairs(rows@);
    let mut i: usize = 0;
    assert(all.skip(0) =~= all);
    while i < rows.len()
        invariant
            i <= rows@.len(),
            all == row_pairs(rows@),
            value_of(all, key@) == value_of(all.skip(i as int), key@),
        decreases rows@.len() - i,
    {
        assert(all.skip(i as int)[0] == all[i as int]);
        assert(all.skip(i as int).drop_first() =~= all.skip(i + 1));
        if text_eq(rows[i].key.as_str(), key) {
            return rows[i].value.as_str().to_owned();
        }
        i += 1;
    }
    "<absent>".to_owned()
}

/// Render a host-against-mod manifest comparison, marking lines that
/// disagree.
pub fn manifest_diff(host: &str, mods: &str) -> (r: String)
    ensures
        r@ == diff_text(host@, mods@),
{
    let ours: Vec<ManifestRow> = parse_manifest(host);
    let theirs: Vec<ManifestRow> = parse_manifest(mods);
    let ghost hp = pairs(host@);
    let ghost mp = pairs(mods@);
    let mut out: String = String::new();
    let mut i: usize = 0;
    assert(out@ =~= Seq::<char>::empty());
    while i < ours.len()
        invariant
            i <= ours@.len(),
            row_pairs(ours@) == hp,
            row_pairs(theirs@) == mp,
            out@ == diff_upto(hp, mp, i as int),
        decreases ours@.len() - i,
    {
        let ghost start = out@;
        assert(hp[i as int] == (ours@[i as int].key@, ours@[i as int].value@));
        let value: String = lookup(&theirs, ours[i].key.as_str());
        out.append("    ");
        push_padded(&mut out, ours[i].key.as_str(), 8);
        out.append(" host ");
        push_padded(&mut out, ours[i].value.as_str(), 28);
        out.append(" mod ");
        out.append(value.as_str());
        if text_eq(value.as_str(), ours[i].value.as_str()) {
            out.append("\n");
        } else {
            out.append("   <- mismatch\n");
        }
        assert(out@ =~= start + diff_line(hp[i as int].0, hp[i as int].1, value@));
        i += 1;
    }
    out
}

// --- the loader -------------------------------------------------------------

/// When a file last changed.
#[derive(Clone, Copy, PartialEq, Eq, Debug, Structural)]
pub struct Stamp {
    pub secs: u64,
    pub nanos: u32,
}

/// A watched library.
pub struct ModEntry {
    /// Module name: file stem without the `lib` prefix.
    pub name: String,
    /// Whether an init of it has succeeded.
    pub live: bool,
    /// The change time of the file last tried.
    pub seen: Option<Stamp>,
}

/// How an attempt to load a mod went.
pub enum Attempt {
    /// The library would not open.
    NoOpen { error: String },
    /// It has no ABI symbol.
    NoAbi { error: String },
    /// It was built against a different kernel; `theirs` is its manifest, if
    /// it has one.
    Mismatch { abi: u64, host: u64, ours: String, theirs: Option<String> },
    /// It has no init symbol.
    NoInit { error: String },
    /// Its init returned true.
    Loaded,
    /// Its init returned false.
    Refused,
    /// Its init panicked.
    Panicked,
}

/// The hexadecimal digit of `d`.
pub open spec fn hex_char(d: int) -> char {
    if d < 10 {
        (48 + d) as u8 as char
    } else {
        (87 + d) as u8 as char
    }
}

/// Hexadecimal rendering of a number.
pub open spec fn hex(n: nat) -> Seq<char>
    decreases n,
{
    if n < 16 {
        seq![hex_char(n as int)]
    } else {
        hex(n / 16).push(hex_char(n as int % 16))
    }
}

/// What is said of an attempt.
pub open spec fn report(name: Seq<char>, a: Attempt) -> Seq<char> {
    "pm: mod '"@ + name + match a {
        Attempt::NoOpen { error } => "' failed to open: "@ + error@,
        Attempt::NoAbi { error } => "' has no pm_mod_abi: "@ + error@,
        Attempt::Mismatch { abi, host, ours, theirs } => "' ABI 0x"@ + hex(abi as nat)
            + " != host 0x"@ + hex(host as nat)
            + " — built against a different pm. Rebuild it with the host's exact toolchain and profile (use the workspace rust-toolchain.toml).\n"@
            + match theirs {
            Some(t) => diff_text(ours@, t@),
            None => Seq::empty(),
        },
        Attempt::NoInit { error } => "' has no pm_mod_init: "@ + error@,
        Attempt::Loaded => "' loaded"@,
        Attempt::Refused => "' init returned false"@,
        Attempt::Panicked => "' init panicked (see message above)"@,
    }
}

/// A file stem without any leading `lib`.
pub open spec fn unprefixed(stem: Seq<char>) -> Seq<char>
    decreases stem.len(),
{
    if stem.len() >= 3 && stem[0] == 'l' && stem[1] == 'i' && stem[2] == 'b' {
        unprefixed(stem.skip(3))
    } else {
        stem
    }
}

/// Append the hexadecimal rendering of a number.
fn push_hex(out: &mut String, n: u64)
    ensures
        final(out)@ == old(out)@ + hex(n as nat),
    decreases n,
{
    let ghost start = out@;
    if n >= 16 {
        push_hex(out, n / 16);
    }
    out.append(hex_text(n % 16));
    assert(out@ =~= start + hex(n as nat));
}

/// A one-character text for a hexadecimal digit.
fn hex_text(d: u64) -> (r: &'static str)
    requires
        d < 16,
    ensures
        r@ == seq![hex_char(d as int)],
{
    proof {
        reveal_strlit("0");
        reveal_strlit("1");
        reveal_strlit("2");
        reveal_strlit("3");
        reveal_strlit("4");
        reveal_strlit("5");
        reveal_strlit("6");
        reveal_strlit("7");
        reveal_strlit("8");
        reveal_strlit("9");
        reveal_strlit("a");
        reveal_strlit("b");
        reveal_strlit("c");
        reveal_strlit("d");
        reveal_strlit("e");
        reveal_strlit("f");
    }
    let r: &'static str = match d {
        0 => "0",
        1 => "1",
        2 => "2",
        3 => "3",
        4 => "4",
        5 => "5",
        6 => "6",
        7 => "7",
        8 => "8",
        9 => "9",
        10 => "a",
        11 => "b",
        12 => "c",
        13 => "d",
        14 => "e",
        _ => "f",
    };
    assert(r@ =~= seq![hex_char(d as int)]);
    r
}

/// The module name of a library file.
pub fn mod_name(stem: Option<&str>) -> (r: String)
    ensures
        r@ == match stem {
            Some(s) => unprefixed(s@),
            None => "mod"@,
        },
{
    let s: &str = match stem {
        Some(s) => s,
        None => {
            return "mod".to_owned();
        },
    };
    let n: usize = s.unicode_len();
    let mut at: usize = 0;
    assert(s@.skip(0) =~= s@);
    while n - at >= 3 && s.get_char(at) == 'l' && s.get_char(at + 1) == 'i' && s.get_char(at + 2)
        == 'b'
        invariant
            at <= n,
            n == s@.len(),
            unprefixed(s@) == unprefixed(s@.skip(at as int)),
        decreases n - at,
    {
        assert(s@.skip(at as int).skip(3) =~= s@.skip(at + 3));
        at += 3;
    }
    assert(s@.subrange(at as int, n as int) =~= s@.skip(at as int));
    part(s, at, n)
}

/// The watched libraries.
pub struct ModLoader {
    mods: Vec<ModEntry>,
}

impl View for ModLoader {
    type V = Seq<ModEntry>;

    closed spec fn view(&self) -> Seq<ModEntry> {
        self.mods@
    }
}

/// The names of entries that are live, in order.
pub open spec fn live_names(mods: Seq<ModEntry>) -> Seq<Seq<char>>
    decreases mods.len(),
{
    if mods.len() == 0 {
        Seq::empty()
    } else {
        let before = live_names(mods.drop_last());
        if mods.last().live {
            before.push(mods.last().name@)
        } else {
            before
        }
    }
}

impl ModLoader {
    pub fn new() -> (r: Self)
        ensures
            r@ == Seq::<ModEntry>::empty(),
    {
        ModLoader { mods: Vec::new() }
    }

    /// Watch a library by its file stem. Missing files are fine — the mod
    /// loads when the file appears. Returns its position.
    pub fn watch(&mut self, stem: Option<&str>) -> (r: usize)
        ensures
            r == old(self)@.len(),
            final(self)@.len() == r + 1,
            final(self)@.drop_last() == old(self)@,
            final(self)@.last().name@ == match stem {
                Some(s) => unprefixed(s@),
                None => "mod"@,
            },
            !final(self)@.last().live,
            final(self)@.last().seen is None,
    {
        let at: usize = self.mods.len();
        self.mods.push(ModEntry { name: mod_name(stem), live: false, seen: None });
        assert(self@.drop_last() =~= old(self)@);
        at
    }

    /// Names of currently loaded mods.
    pub fn loaded(&self) -> (r: Vec<String>)
        ensures
            r@.map_values(|s: String| s@) == live_names(self@),
    {
        let mut out: Vec<String> = Vec::new();
        let mut i: usize = 0;
        assert(self@.take(0) =~= Seq::<ModEntry>::empty());
        assert(out@.map_values(|s: String| s@) =~= Seq::<Seq<char>>::empty());
        while i < self.mods.len()
            invariant
                i <= self.mods@.len(),
                out@.map_values(|s: String| s@) == live_names(self.mods@.take(i as int)),
            decreases self.mods@.len() - i,
        {
            let ghost was = out@;
            proof {
                let next = self.mods@.take(i + 1);
                assert(next.drop_last() =~= self.mods@.take(i as int));
                assert(next.last() == self.mods@[i as int]);
            }
            if self.mods[i].live {
                out.push(self.mods[i].name.as_str().to_owned());
                assert(out@.map_values(|s: String| s@) =~= was.map_values(|s: String| s@).push(
                    self.mods@[i as int].name@,
                ));
            }
            i += 1;
        }
        assert(self.mods@.take(i as int) =~= self.mods@);
        out
    }

    /// Whether the mod's file changed since it was last tried; `now` is its
    /// change time, if the file is there. A changed file counts as tried.
    pub fn due(&mut self, i: usize, now: Option<Stamp>) -> (r: bool)
        requires
            i < old(self)@.len(),
        ensures
            r == (now is Some && now != old(self)@[i as int].seen),
            final(self)@.len() == old(self)@.len(),
            forall|k: int|
                0 <= k < old(self)@.len() && k != i ==> #[trigger] final(self)@[k]
                    == old(self)@[k],
            final(self)@[i as int] == (ModEntry {
                seen: if r {
                    now
                } else {
                    old(self)@[i as int].seen
                },
                ..old(self)@[i as int]
            }),
    {
        let stamp: Stamp = match now {
            Some(stamp) => stamp,
            None => {
                return false;
            },
        };
        let same: bool = match self.mods[i].seen {
            Some(seen) => seen.secs == stamp.secs && seen.nanos == stamp.nanos,
            None => false,
        };
        if same {
            return false;
        }
        self.mods[i].seen = Some(stamp);
        true
    }

    /// Take note of how an attempt went; returns what to tell the author.
    /// Only a successful init makes a mod live, and a failed reload leaves
    /// the running one in place.
    pub fn settle(&mut self, i: usize, attempt: Attempt) -> (r: String)
        requires
            i < old(self)@.len(),
        ensures
            r@ == report(old(self)@[i as int].name@, attempt),
            final(self)@.len() == old(self)@.len(),
            forall|k: int|
                0 <= k < old(self)@.len() && k != i ==> #[trigger] final(self)@[k]
                    == old(self)@[k],
            final(self)@[i as int] == (ModEntry {
                live: old(self)@[i as int].live || attempt is Loaded,
                ..old(self)@[i as int]
            }),
    {
        let ghost name = self.mods@[i as int].name@;
        let mut out: String = "pm: mod '".to_owned();
        out.append(self.mods[i].name.as_str());
        let ghost head = out@;
        match &attempt {
            Attempt::NoOpen { error } => {
                out.append("' failed to open: ");
                out.append(error.as_str());
            },
            Attempt::NoAbi { error } => {
                out.append("' has no pm_mod_abi: ");
                out.append(error.as_str());
            },
            Attempt::Mismatch { abi, host, ours, theirs } => {
                out.append("' ABI 0x");
                push_hex(&mut out, *abi);
                out.append(" != host 0x");
                push_hex(&mut out, *host);
                out.append(
                    " — built against a different pm. Rebuild it with the host's exact toolchain and profile (use the workspace rust-toolchain.toml).\n",
                );
                if let Some(t) = theirs {
                    let diff: String = manifest_diff(ours.as_str(), t.as_str());
                    out.append(diff.as_str());
                }
            },
            Attempt::NoInit { error } => {
                out.append("' has no pm_mod_init: ");
                out.append(error.as_str());
            },
            Attempt::Loaded => {
                out.append("' loaded");
                self.mods[i].live = true;
            },
            Attempt::Refused => {
                out.append("' init returned false");
            },
            Attempt::Panicked => {
                out.append("' init panicked (see message above)");
            },
        }
        assert(out@ =~= report(name, attempt));
        out
    }
}

impl Default for ModLoader {
    fn default() -> (r: Self)
        ensures
            r@ == Seq::<ModEntry>::empty(),
    {
        ModLoader::new()
    }
}

/// A search stops at the first match, or behind the end where there is none.
pub proof fn a_search_stops_at_the_first(s: Seq<char>, c: char, k: int)
    requires
        0 <= k <= s.len(),
    ensures
        k <= find_from(s, c, k) <= s.len(),
        find_from(s, c, k) < s.len() ==> s[find_from(s, c, k)] == c,
        forall|j: int| k <= j < find_from(s, c, k) ==> #[trigger] s[j] != c,
    decreases s.len() - k,
{
    if k < s.len() && s[k] != c {
        a_search_stops_at_the_first(s, c, k + 1);
    }
}

/// A line of a manifest, `key=value`, gives its pair, and the lines behind it
/// follow; the value may hold further signs, and a carriage return before the
/// line's end is none of it.
pub proof fn a_manifest_line_gives_its_pair(
    key: Seq<char>,
    value: Seq<char>,
    rest: Seq<char>,
    cr: bool,
)
    requires
        forall|i: int| 0 <= i < key.len() ==> #[trigger] key[i] != '=' && key[i] != '\n',
        forall|i: int| 0 <= i < value.len() ==> #[trigger] value[i] != '\n',
        value.len() > 0 ==> value.last() != '\r',
    ensures
        ({
            let end = if cr {
                seq!['\r', '\n']
            } else {
                seq!['\n']
            };
            pairs(key + seq!['='] + value + end + rest) == seq![(key, value)] + pairs(rest)
        }),
{
    let end = if cr {
        seq!['\r', '\n']
    } else {
        seq!['\n']
    };
    let bare = key + seq!['='] + value;
    let s = bare + end + rest;
    let n = bare.len() + end.len() - 1;
    assert forall|j: int| 0 <= j < n implies s[j] != '\n' by {
        if j < key.len() {
            assert(s[j] == key[j]);
        } else if key.len() < j < bare.len() {
            assert(s[j] == value[j - key.len() - 1]);
        }
    }
    assert(s[n] == '\n');
    found_at(s, '\n', n);
    assert(s.skip(n + 1) =~= rest);
    let line = s.take(n);
    if cr {
        assert(line.last() == '\r');
        assert(line.drop_last() =~= bare);
    } else {
        assert(line =~= bare);
        assert(bare.last() != '\r') by {
            if value.len() > 0 {
                assert(bare.last() == value.last());
            } else {
                assert(bare.last() == '=');
            }
        }
    }
    assert(first_line(s) == bare);
    assert forall|j: int| 0 <= j < key.len() implies bare[j] != '=' by {
        assert(bare[j] == key[j]);
    }
    assert(bare[key.len() as int] == '=');
    found_at(bare, '=', key.len() as int);
    assert(bare.take(key.len() as int) =~= key);
    assert(bare.skip(key.len() as int + 1) =~= value);
}

/// A line without a sign gives no pair.
pub proof fn a_line_without_a_sign_gives_none(line: Seq<char>, rest: Seq<char>)
    requires
        forall|i: int| 0 <= i < line.len() ==> #[trigger] line[i] != '=' && line[i] != '\n',
    ensures
        pairs(line + seq!['\n'] + rest) == pairs(rest),
        pairs(line).len() == 0,
{
    let s = line + seq!['\n'] + rest;
    let n = line.len() as int;
    assert forall|j: int| 0 <= j < n implies s[j] != '\n' by {
        assert(s[j] == line[j]);
    }
    found_at(s, '\n', n);
    assert(s.skip(n + 1) =~= rest);
    assert(s.take(n) =~= line);
    let first = first_line(s);
    assert forall|j: int| 0 <= j < first.len() implies first[j] != '=' by {
        assert(first[j] == line[j]);
    }
    a_search_stops_at_the_first(first, '=', 0);
    a_search_stops_at_the_first(line, '\n', 0);
    a_search_stops_at_the_first(line, '=', 0);
    if line.len() > 0 {
        assert(first_line(line) == line);
        assert(other_lines(line).len() == 0);
        assert(pairs(other_lines(line)).len() == 0);
    }
}

/// The first match, where it is known.
proof fn found_at(s: Seq<char>, c: char, k: int)
    requires
        0 <= k < s.len(),
        s[k] == c,
        forall|j: int| 0 <= j < k ==> s[j] != c,
    ensures
        find_from(s, c, 0) == k,
{
    a_search_stops_at_the_first(s, c, 0);
    let f = find_from(s, c, 0);
    if f < k {
        assert(s[f] != c);
    }
    if k < f {
        assert(s[k] != c);
    }
}

/// A key's value is that of its first pair, and `<absent>` without one.
pub proof fn a_key_has_its_first_value(
    rows: Seq<(Seq<char>, Seq<char>)>,
    key: Seq<char>,
    k: int,
)
    requires
        0 <= k <= rows.len(),
        forall|j: int| 0 <= j < k ==> (#[trigger] rows[j]).0 != key,
        k < rows.len() ==> rows[k].0 == key,
    ensures
        k < rows.len() ==> value_of(rows, key) == rows[k].1,
        k == rows.len() ==> value_of(rows, key) == "<absent>"@,
    decreases k,
{
    if k > 0 {
        assert(rows[0].0 != key);
        let rest = rows.drop_first();
        assert forall|j: int| 0 <= j < k - 1 implies (#[trigger] rest[j]).0 != key by {
            assert(rows[j + 1].0 != key);
        }
        a_key_has_its_first_value(rest, key, k - 1);
    }
}

/// Padding adds blanks behind a text up to the width, and takes nothing away.
pub proof fn padding_fills_with_blanks(s: Seq<char>, width: int, i: int)
    ensures
        padded(s, width).len() == if s.len() < width {
            width
        } else {
            s.len() as int
        },
        0 <= i < s.len() ==> padded(s, width)[i] == s[i],
        s.len() <= i < width ==> padded(s, width)[i] == ' ',
{
    blanks_are_blank(width - s.len());
}

/// Blanks, that many.
proof fn blanks_are_blank(n: int)
    ensures
        blanks(n).len() == if n < 0 {
            0
        } else {
            n
        },
        forall|i: int| 0 <= i < n ==> #[trigger] blanks(n)[i] == ' ',
    decreases n,
{
    reveal_strlit(" ");
    if n > 0 {
        blanks_are_blank(n - 1);
        assert forall|i: int| 0 <= i < n implies #[trigger] blanks(n)[i] == ' ' by {
            if i < n - 1 {
                assert(blanks(n)[i] == blanks(n - 1)[i]);
            }
        }
    }
}

/// The difference has a line for each of the host's keys, in order, against
/// the module's value of it.
pub proof fn a_difference_goes_key_by_key(
    host: Seq<(Seq<char>, Seq<char>)>,
    mods: Seq<(Seq<char>, Seq<char>)>,
    n: int,
)
    requires
        0 <= n < host.len(),
    ensures
        diff_upto(host, mods, 0).len() == 0,
        diff_upto(host, mods, n + 1) == diff_upto(host, mods, n) + diff_line(
            host[n].0,
            host[n].1,
            value_of(mods, host[n].0),
        ),
{
}

/// The number a run of hex digits stands for.
pub open spec fn hex_value(s: Seq<char>) -> int
    decreases s.len(),
{
    if s.len() == 0 {
        0
    } else {
        16 * hex_value(s.drop_last()) + if '0' <= s.last() <= '9' {
            s.last() as int - 48
        } else {
            s.last() as int - 87
        }
    }
}

/// A number is written in lower hex digits that stand for it, without a
/// leading zero.
pub proof fn hex_stands_for_its_number(n: nat)
    ensures
        hex(n).len() > 0,
        hex_value(hex(n)) == n,
        forall|i: int|
            0 <= i < hex(n).len() ==> '0' <= #[trigger] hex(n)[i] <= '9' || 'a' <= hex(n)[i]
                <= 'f',
        n > 0 ==> hex(n)[0] != '0',
    decreases n,
{
    let d = n as int % 16;
    assert(hex_char(d) as int == if d < 10 {
        48 + d
    } else {
        87 + d
    });
    if n < 16 {
        assert(hex(n).drop_last() =~= Seq::<char>::empty());
        assert(hex_value(Seq::<char>::empty()) == 0);
        assert(hex(n).last() == hex_char(d));
    } else {
        hex_stands_for_its_number(n / 16);
        assert(hex(n).drop_last() =~= hex(n / 16));
        assert forall|i: int| 0 <= i < hex(n).len() implies '0' <= #[trigger] hex(n)[i] <= '9'
            || 'a' <= hex(n)[i] <= 'f' by {
            if i < hex(n / 16).len() {
                assert(hex(n)[i] == hex(n / 16)[i]);
            }
        }
    }
}

/// A module's name is its file's stem without any `lib` before it.
pub proof fn a_name_has_no_lib_before_it(stem: Seq<char>) -> (k: int)
    ensures
        0 <= 3 * k <= stem.len(),
        unprefixed(stem) == stem.skip(3 * k),
        forall|j: int|
            0 <= j < k ==> #[trigger] stem[3 * j] == 'l' && stem[3 * j + 1] == 'i' && stem[3 * j
                + 2] == 'b',
        !(unprefixed(stem).len() >= 3 && unprefixed(stem)[0] == 'l' && unprefixed(stem)[1] == 'i'
            && unprefixed(stem)[2] == 'b'),
    decreases stem.len(),
{
    if stem.len() >= 3 && stem[0] == 'l' && stem[1] == 'i' && stem[2] == 'b' {
        let rest = stem.skip(3);
        let k = a_name_has_no_lib_before_it(rest);
        assert(rest.skip(3 * k) =~= stem.skip(3 * (k + 1)));
        assert forall|j: int| 0 <= j < k + 1 implies #[trigger] stem[3 * j] == 'l' && stem[3 * j
            + 1] == 'i' && stem[3 * j + 2] == 'b' by {
            if j > 0 {
                assert(rest[3 * (j - 1)] == 'l');
            }
        }
        k + 1
    } else {
        assert(stem.skip(0) =~= stem);
        0
    }
}

/// The live modules are listed by name, exactly those and in order.
pub proof fn exactly_the_live_are_listed(mods: Seq<ModEntry>) -> (at: Seq<int>)
    ensures
        live_names(mods).len() == at.len(),
        forall|k: int|
            0 <= k < at.len() ==> 0 <= #[trigger] at[k] < mods.len() && live_names(mods)[k]
                == mods[at[k]].name@,
        forall|j: int, k: int| 0 <= j < k < at.len() ==> (#[trigger] at[j]) < (#[trigger] at[k]),
        forall|i: int| 0 <= i < mods.len() ==> (#[trigger] at.contains(i) <==> mods[i].live),
    decreases mods.len(),
{
    if mods.len() == 0 {
        Seq::empty()
    } else {
        let init = mods.drop_last();
        let before = exactly_the_live_are_listed(init);
        let n = mods.len() - 1;
        let at = if mods[n].live {
            before.push(n)
        } else {
            before
        };
        let out = live_names(mods);
        assert forall|k: int| 0 <= k < at.len() implies 0 <= #[trigger] at[k] < mods.len() && out[k]
            == mods[at[k]].name@ by {
            if k < before.len() {
                assert(at[k] == before[k]);
                assert(init[before[k]] == mods[at[k]]);
            }
        }
        assert forall|j: int, k: int| 0 <= j < k < at.len() implies (#[trigger] at[j]) < (
        #[trigger] at[k]) by {
            assert(at[j] == before[j]);
            if k < before.len() {
                assert(at[k] == before[k]);
            }
        }
        assert forall|i: int| 0 <= i < mods.len() implies (#[trigger] at.contains(i)
            <==> mods[i].live) by {
            crate::sort::contains_push(before, n, i);
            if i < n {
                assert(before.contains(i) <==> init[i].live);
            } else if before.contains(i) {
                let k = choose|k: int| 0 <= k < before.len() && before[k] == i;
                assert(before[k] < init.len());
            }
        }
        at
    }
}

/// A difference is over the host's manifest, against the module's.
pub proof fn a_difference_is_over_the_hosts_manifest(host: Seq<char>, mods: Seq<char>)
    ensures
        diff_text(host, mods) == diff_upto(pairs(host), pairs(mods), pairs(host).len() as int),
{
}

/// A manifest's rows are its pairs, row for row.
pub proof fn manifest_rows_are_pairs(rows: Seq<ManifestRow>, k: int)
    requires
        0 <= k < rows.len(),
    ensures
        row_pairs(rows).len() == rows.len(),
        row_pairs(rows)[k].0 == rows[k].key@,
        row_pairs(rows)[k].1 == rows[k].value@,
{
}

} // verus!
