//! Utilities: the `key=value` configuration store, timers, a small
//! time-limited cache and a table of timing samples.

use vstd::prelude::*;
use vstd::string::StringExecFns;
use crate::kv::{as_map, find_key, has_key, keys_distinct, lemma_as_map_push, lemma_as_map_update};
use crate::text::{key_value_in, key_value_of, parse_bool, parse_i32, bool_of, i32_of, push_char};

verus! {

/// Errors of the utility layer.
#[derive(Debug)]
pub enum UtilError {
    IoError(String),
    ParseError(String),
    InvalidInput(String),
}

/// Splits text at each `\n`; a text ending in `\n` yields an empty last
/// piece, and the empty text one empty line.
pub open spec fn split_lines(s: Seq<char>) -> Seq<Seq<char>>
    decreases s.len(),
{
    if s.len() == 0 {
        seq![Seq::empty()]
    } else {
        let before = split_lines(s.drop_last());
        if s.last() == '\n' {
            before.push(Seq::empty())
        } else {
            before.update(before.len() - 1, before.last().push(s.last()))
        }
    }
}

proof fn lemma_split_lines_nonempty(s: Seq<char>)
    ensures
        split_lines(s).len() >= 1,
    decreases s.len(),
{
    if s.len() > 0 {
        lemma_split_lines_nonempty(s.drop_last());
    }
}

/// The settings after reading `lines` in order into `m`: each line that
/// holds a `key=value` pair sets that key, later lines winning.
pub open spec fn apply_lines(m: Map<Seq<char>, Seq<char>>, lines: Seq<Seq<char>>) -> Map<
    Seq<char>,
    Seq<char>,
>
    decreases lines.len(),
{
    if lines.len() == 0 {
        m
    } else {
        let before = apply_lines(m, lines.drop_last());
        match key_value_of(lines.last()) {
            Some((k, v)) => before.insert(k, v),
            None => before,
        }
    }
}

/// The text a configuration is saved as: one `key=value` line per entry.
pub open spec fn config_text(entries: Seq<(Seq<char>, Seq<char>)>) -> Seq<char>
    decreases entries.len(),
{
    if entries.len() == 0 {
        Seq::empty()
    } else {
        let e = entries.last();
        config_text(entries.drop_last()) + e.0 + seq!['='] + e.1 + seq!['\n']
    }
}

/// An entry that survives being saved and read back: a key that is not
/// empty, does not start with `#`, holds no `=` or line break and has no
/// white space at either end, and a value with no line break and no white
/// space at either end.
pub open spec fn storable_entry(e: (Seq<char>, Seq<char>)) -> bool {
    &&& e.0.len() > 0
    &&& e.0[0] != '#'
    &&& !e.0.contains('=')
    &&& !e.0.contains('\n')
    &&& crate::text::trimmed(e.0) == e.0
    &&& !e.1.contains('\n')
    &&& crate::text::trimmed(e.1) == e.1
}

/// The line an entry is saved as.
pub open spec fn entry_line(e: (Seq<char>, Seq<char>)) -> Seq<char> {
    e.0 + seq!['='] + e.1
}

proof fn lemma_split_lines_extend(a: Seq<char>, s: Seq<char>)
    requires
        !s.contains('\n'),
    ensures
        split_lines(a + s) == split_lines(a).update(
            split_lines(a).len() - 1,
            split_lines(a).last() + s,
        ),
    decreases s.len(),
{
    lemma_split_lines_nonempty(a);
    if s.len() == 0 {
        assert(a + s =~= a);
        assert(split_lines(a).last() + s =~= split_lines(a).last());
        assert(split_lines(a).update(split_lines(a).len() - 1, split_lines(a).last()) =~= split_lines(a));
    } else {
        let f = s.drop_last();
        assert(!f.contains('\n')) by {
            if f.contains('\n') {
                let j = choose|j: int| 0 <= j < f.len() && f[j] == '\n';
                assert(s[j] == '\n');
            }
        }
        lemma_split_lines_extend(a, f);
        assert((a + s).drop_last() =~= a + f);
        assert((a + s).last() == s.last());
        assert(s.last() != '\n') by {
            assert(s[s.len() - 1] == s.last());
        }
        lemma_split_lines_nonempty(a + f);
        let b = split_lines(a);
        assert((b.last() + f).push(s.last()) =~= b.last() + s);
        assert(split_lines(a + s) =~= b.update(b.len() - 1, b.last() + s));
    }
}

proof fn lemma_config_lines(entries: Seq<(Seq<char>, Seq<char>)>)
    requires
        forall|i: int| 0 <= i < entries.len() ==> storable_entry(#[trigger] entries[i]),
    ensures
        split_lines(config_text(entries)) == entries.map_values(|e: (Seq<char>, Seq<char>)| entry_line(e)).push(
            Seq::empty(),
        ),
    decreases entries.len(),
{
    let f = |e: (Seq<char>, Seq<char>)| entry_line(e);
    if entries.len() == 0 {
        assert(entries.map_values(f).push(Seq::empty()) =~= seq![Seq::<char>::empty()]);
    } else {
        let front = entries.drop_last();
        let e = entries.last();
        assert(storable_entry(entries[entries.len() - 1]));
        assert forall|i: int| 0 <= i < front.len() implies storable_entry(#[trigger] front[i]) by {
            assert(storable_entry(entries[i]));
        }
        lemma_config_lines(front);
        let a = config_text(front);
        let line = entry_line(e);
        assert(!line.contains('\n')) by {
            if line.contains('\n') {
                let j = choose|j: int| 0 <= j < line.len() && line[j] == '\n';
                if j < e.0.len() {
                    assert(e.0[j] == '\n');
                } else if j > e.0.len() {
                    assert(e.1[j - e.0.len() - 1] == '\n');
                }
            }
        }
        lemma_split_lines_extend(a, line);
        let b = split_lines(a);
        assert(b.update(b.len() - 1, b.last() + line) =~= front.map_values(f).push(line)) by {
            assert(Seq::<char>::empty() + line =~= line);
        }
        assert(config_text(entries) =~= (a + line).push('\n'));
        assert(((a + line).push('\n')).drop_last() =~= a + line);
        assert(entries.map_values(f) =~= front.map_values(f).push(line));
    }
}

proof fn lemma_trim_start_shape(s: Seq<char>)
    ensures
        crate::text::trim_start(s).len() <= s.len(),
        crate::text::trim_start(s).len() > 0 ==> crate::text::trim_start(s).last() == s.last(),
        s.len() > 0 && crate::text::is_white_space(s[0]) ==> crate::text::trim_start(s).len() < s.len(),
    decreases s.len(),
{
    if s.len() > 0 && crate::text::is_white_space(s[0]) {
        lemma_trim_start_shape(s.drop_first());
        if s.drop_first().len() > 0 {
            assert(s.drop_first().last() == s.last());
        }
    }
}

proof fn lemma_trim_end_shape(s: Seq<char>)
    ensures
        crate::text::trim_end(s).len() <= s.len(),
        s.len() > 0 && crate::text::is_white_space(s.last()) ==> crate::text::trim_end(s).len() < s.len(),
    decreases s.len(),
{
    if s.len() > 0 && crate::text::is_white_space(s.last()) {
        lemma_trim_end_shape(s.drop_last());
    }
}

/// A text that trimming leaves unchanged has no white space at its ends.
proof fn lemma_trimmed_ends(s: Seq<char>)
    requires
        s.len() > 0,
        crate::text::trimmed(s) == s,
    ensures
        !crate::text::is_white_space(s[0]),
        !crate::text::is_white_space(s.last()),
{
    let t = crate::text::trim_start(s);
    lemma_trim_start_shape(s);
    lemma_trim_end_shape(t);
}

proof fn lemma_trimmed_unchanged(s: Seq<char>)
    requires
        s.len() > 0,
        !crate::text::is_white_space(s[0]),
        !crate::text::is_white_space(s.last()),
    ensures
        crate::text::trimmed(s) == s,
{
    assert(crate::text::trim_start(s) == s);
    assert(crate::text::trim_end(s) == s);
}

proof fn lemma_entry_line_reads_back(e: (Seq<char>, Seq<char>))
    requires
        storable_entry(e),
    ensures
        key_value_of(entry_line(e)) == Some(e),
{
    let line = entry_line(e);
    let k = e.0;
    let v = e.1;
    assert(line[0] == k[0]);
    lemma_trimmed_ends(k);
    if v.len() == 0 {
        assert(line.last() == '=');
    } else {
        assert(line.last() == v.last());
        lemma_trimmed_ends(v);
    }
    lemma_trimmed_unchanged(line);
    let p = k.len() as int;
    assert(crate::text::is_first_index(line, '=', p)) by {
        assert forall|j: int| 0 <= j < p implies line[j] != '=' by {
            assert(line[j] == k[j]);
            if k[j] == '=' {
                assert(k.contains('='));
            }
        }
    }
    assert(line.contains('=')) by {
        assert(line[p] == '=');
    }
    let q = crate::text::first_index(line, '=');
    assert(crate::text::is_first_index(line, '=', q));
    if q < p {
        assert(line[q] == k[q]);
        assert(k.contains('='));
    }
    if p < q {
        assert(line[p] == '=');
    }
    assert(line.take(p) =~= k);
    assert(line.skip(p + 1) =~= v);
}

proof fn lemma_apply_entry_lines(entries: Seq<(Seq<char>, Seq<char>)>)
    requires
        keys_distinct(entries),
        forall|i: int| 0 <= i < entries.len() ==> storable_entry(#[trigger] entries[i]),
    ensures
        apply_lines(Map::empty(), entries.map_values(|e: (Seq<char>, Seq<char>)| entry_line(e)))
            == as_map(entries),
    decreases entries.len(),
{
    let f = |e: (Seq<char>, Seq<char>)| entry_line(e);
    if entries.len() == 0 {
        assert(as_map(entries) =~= Map::<Seq<char>, Seq<char>>::empty());
    } else {
        let front = entries.drop_last();
        let e = entries.last();
        assert(keys_distinct(front)) by {
            assert forall|i: int, j: int| 0 <= i < j < front.len() implies #[trigger] front[i].0
                != #[trigger] front[j].0 by {
                assert(entries[i].0 != entries[j].0);
            }
        }
        assert forall|i: int| 0 <= i < front.len() implies storable_entry(#[trigger] front[i]) by {
            assert(storable_entry(entries[i]));
        }
        lemma_apply_entry_lines(front);
        assert(storable_entry(entries[entries.len() - 1]));
        lemma_entry_line_reads_back(e);
        assert(entries.map_values(f).drop_last() =~= front.map_values(f));
        if has_key(front, e.0) {
            let j = crate::kv::key_index(front, e.0);
            assert(entries[j].0 != entries[entries.len() - 1].0);
        }
        lemma_as_map_push(front, e.0, e.1);
        assert(front.push(e) =~= entries);
    }
}

/// Saving settings and reading the saved text into an empty store gives
/// the same settings back, when every entry is one a line can hold.
pub proof fn lemma_config_roundtrip(entries: Seq<(Seq<char>, Seq<char>)>)
    requires
        keys_distinct(entries),
        forall|i: int| 0 <= i < entries.len() ==> storable_entry(#[trigger] entries[i]),
    ensures
        apply_lines(Map::empty(), split_lines(config_text(entries))) == as_map(entries),
{
    let f = |e: (Seq<char>, Seq<char>)| entry_line(e);
    lemma_config_lines(entries);
    let lines = entries.map_values(f);
    assert(lines.push(Seq::empty()).drop_last() =~= lines);
    assert(key_value_of(Seq::<char>::empty()) is None);
    lemma_apply_entry_lines(entries);
}

/// Settings read from and written to a `key=value` file.
pub struct ConfigManager {
    settings: Vec<(String, String)>,
    config_path: String,
}

impl ConfigManager {
    /// The settings as pairs of character sequences, in storage order.
    pub closed spec fn entries(self) -> Seq<(Seq<char>, Seq<char>)> {
        self.settings@.map_values(|e: (String, String)| (e.0@, e.1@))
    }

    /// No key is stored twice.
    pub closed spec fn wf(self) -> bool {
        keys_distinct(self.entries())
    }

    /// The settings as a map.
    pub closed spec fn settings(self) -> Map<Seq<char>, Seq<char>> {
        as_map(self.entries())
    }

    /// The file the settings belong to.
    pub closed spec fn path(self) -> Seq<char> {
        self.config_path@
    }

    /// An empty store for the file `config_path`; the caller reads the file
    /// into it with `load_config_text`.
    pub fn new(config_path: &str) -> (m: Self)
        ensures
            m.wf(),
            m.settings() == Map::<Seq<char>, Seq<char>>::empty(),
            m.path() == config_path@,
    {
        let m = ConfigManager { settings: Vec::new(), config_path: String::from_str(config_path) };
        assert(m.entries() =~= Seq::<(Seq<char>, Seq<char>)>::empty());
        assert(m.settings() =~= Map::<Seq<char>, Seq<char>>::empty());
        m
    }

    /// The file the settings belong to.
    pub fn config_path(&self) -> (p: &String)
        ensures
            p@ == self.path(),
    {
        &self.config_path
    }

    /// Reads every `key=value` line of `content` into the settings.
    pub fn load_config_text(&mut self, content: &str)
        requires
            old(self).wf(),
        ensures
            final(self).wf(),
            final(self).path() == old(self).path(),
            final(self).settings() == apply_lines(old(self).settings(), split_lines(content@)),
    {
        let v = crate::text::chars_of(content);
        let ghost start_map = self.settings();
        let mut start: usize = 0;
        let mut i: usize = 0;
        let ghost mut done: Seq<Seq<char>> = Seq::empty();
        assert(v@.take(0) =~= Seq::<char>::empty());
        assert(done.push(v@.subrange(0, 0)) =~= seq![Seq::<char>::empty()]);
        while i < v.len()
            invariant
                start <= i <= v.len(),
                self.wf(),
                self.path() == old(self).path(),
                split_lines(v@.take(i as int)) == done.push(v@.subrange(start as int, i as int)),
                self.settings() == apply_lines(start_map, done),
            decreases v.len() - i,
        {
            let ghost pre = v@.take(i as int);
            assert(v@.take(i + 1).drop_last() =~= pre);
            if v[i] == '\n' {
                let parsed = key_value_in(&v, start, i);
                match parsed {
                    Some((k, val)) => {
                        self.set(k, val);
                    },
                    None => {},
                }
                proof {
                    let d2 = done.push(v@.subrange(start as int, i as int));
                    assert(d2.drop_last() =~= done);
                    done = d2;
                    assert(v@.take(i + 1).last() == '\n');
                    assert(split_lines(v@.take(i + 1)) == split_lines(pre).push(Seq::empty()));
                    assert(v@.subrange(i + 1, i + 1) =~= Seq::<char>::empty());
                    assert(split_lines(v@.take(i + 1)) =~= done.push(v@.subrange(i + 1, i + 1)));
                }
                start = i + 1;
            } else {
                proof {
                    let before = split_lines(pre);
                    assert(before.last() =~= v@.subrange(start as int, i as int));
                    assert(v@.subrange(start as int, i as int).push(v@[i as int]) =~= v@.subrange(
                        start as int,
                        i + 1,
                    ));
                    assert(split_lines(v@.take(i + 1)) =~= done.push(
                        v@.subrange(start as int, i + 1),
                    ));
                }
            }
            i = i + 1;
        }
        let parsed = key_value_in(&v, start, v.len());
        proof {
            assert(v@.take(v.len() as int) =~= v@);
            let d2 = done.push(v@.subrange(start as int, v.len() as int));
            assert(d2.drop_last() =~= done);
        }
        match parsed {
            Some((k, val)) => {
                self.set(k, val);
            },
            None => {},
        }
    }

    /// The value stored for `key`.
    pub fn get(&self, key: &str) -> (r: Option<&String>)
        requires
            self.wf(),
        ensures
            match r {
                Some(v) => self.settings().contains_key(key@) && self.settings()[key@] == v@,
                None => !self.settings().contains_key(key@),
            },
    {
        match find_key(&self.settings, key) {
            Some(i) => {
                proof {
                    crate::kv::lemma_as_map_at(self.entries(), i as int);
                }
                Some(&self.settings[i].1)
            },
            None => {
                proof {
                    if has_key(self.entries(), key@) {
                        let j = crate::kv::key_index(self.entries(), key@);
                        assert(self.settings@[j].0@ == key@);
                    }
                }
                None
            },
        }
    }

    /// Stores `value` under `key`, replacing any earlier value.
    pub fn set(&mut self, key: String, value: String)
        requires
            old(self).wf(),
        ensures
            final(self).wf(),
            final(self).path() == old(self).path(),
            final(self).settings() == old(self).settings().insert(key@, value@),
    {
        let ghost e = self.entries();
        match find_key(&self.settings, key.as_str()) {
            Some(i) => {
                let ghost kv = (key@, value@);
                self.settings.set(i, (key, value));
                proof {
                    assert(self.entries() =~= e.update(i as int, (e[i as int].0, kv.1)));
                    lemma_as_map_update(e, i as int, kv.1);
                }
            },
            None => {
                let ghost kv = (key@, value@);
                proof {
                    if has_key(e, kv.0) {
                        let j = crate::kv::key_index(e, kv.0);
                        assert(self.settings@[j].0@ == kv.0);
                    }
                }
                self.settings.push((key, value));
                proof {
                    assert(self.entries() =~= e.push(kv));
                    lemma_as_map_push(e, kv.0, kv.1);
                }
            },
        }
    }

    /// The setting `key` read as `true` or `false`, or `default` when it is
    /// missing or reads as neither.
    pub fn get_bool(&self, key: &str, default: bool) -> (r: bool)
        requires
            self.wf(),
        ensures
            r == (if self.settings().contains_key(key@) {
                match bool_of(self.settings()[key@]) {
                    Some(b) => b,
                    None => default,
                }
            } else {
                default
            }),
    {
        match self.get(key) {
            Some(v) => match parse_bool(v.as_str()) {
                Some(b) => b,
                None => default,
            },
            None => default,
        }
    }

    /// The setting `key` read as an `i32`, or `default` when it is missing
    /// or is not a decimal `i32`.
    pub fn get_int(&self, key: &str, default: i32) -> (r: i32)
        requires
            self.wf(),
        ensures
            r == (if self.settings().contains_key(key@) {
                match i32_of(self.settings()[key@]) {
                    Some(n) => n,
                    None => default,
                }
            } else {
                default
            }),
    {
        match self.get(key) {
            Some(v) => match parse_i32(v.as_str()) {
                Some(n) => n,
                None => default,
            },
            None => default,
        }
    }

    /// The text the settings are saved as: `key=value` lines in storage
    /// order.
    pub fn config_text(&self) -> (t: String)
        ensures
            t@ == config_text(self.entries()),
    {
        let mut t = String::new();
        let mut i: usize = 0;
        while i < self.settings.len()
            invariant
                i <= self.settings.len(),
                t@ == config_text(self.entries().take(i as int)),
            decreases self.settings.len() - i,
        {
            let ghost before = t@;
            t.append(self.settings[i].0.as_str());
            push_char(&mut t, '=');
            t.append(self.settings[i].1.as_str());
            push_char(&mut t, '\n');
            proof {
                let e = self.entries();
                assert(e.take(i + 1).drop_last() =~= e.take(i as int));
                assert(t@ =~= before + e[i as int].0 + seq!['='] + e[i as int].1 + seq!['\n']);
            }
            i = i + 1;
        }
        proof {
            assert(self.entries().take(self.settings.len() as int) =~= self.entries());
        }
        t
    }
}

/// Milliseconds since the Unix epoch by the system clock (`elapsed` on
/// `UNIX_EPOCH`), 0 when the clock reads earlier than the epoch. The value
/// depends on the time of the call, so nothing is stated of it.
#[verifier::external_body]
pub(crate) fn clock_millis() -> (ms: u64) {
    match std::time::UNIX_EPOCH.elapsed() {
        Ok(d) => d.as_millis() as u64,
        Err(_) => 0,
    }
}

/// Measures time from a start point in milliseconds.
pub struct Timer {
    start_ms: u64,
    name: String,
}

impl Timer {
    /// The clock reading the timer counts from.
    pub closed spec fn start(self) -> u64 {
        self.start_ms
    }

    /// The timer's label.
    pub closed spec fn label(self) -> Seq<char> {
        self.name@
    }

    /// A timer named `name`, started now.
    pub fn new(name: &str) -> (t: Self)
        ensures
            t.label() == name@,
    {
        Timer { start_ms: clock_millis(), name: String::from_str(name) }
    }

    /// A timer named `name` started at the clock reading `start_ms`.
    pub fn started_at(name: &str, start_ms: u64) -> (t: Self)
        ensures
            t.label() == name@,
            t.start() == start_ms,
    {
        Timer { start_ms, name: String::from_str(name) }
    }

    /// The timer's label.
    pub fn name(&self) -> (n: &String)
        ensures
            n@ == self.label(),
    {
        &self.name
    }

    /// Milliseconds from the start to the clock reading `now_ms`; 0 when
    /// the clock reads earlier than the start.
    pub fn elapsed_ms_at(&self, now_ms: u64) -> (ms: u64)
        ensures
            ms == (if now_ms >= self.start() {
                now_ms - self.start()
            } else {
                0
            }),
    {
        now_ms.saturating_sub(self.start_ms)
    }

    /// Milliseconds since the start, by the system clock.
    pub fn elapsed_ms(&self) -> (ms: u64)
        ensures
            exists|now: u64| #[trigger] self.elapsed_ms_at_spec(now) == ms,
    {
        let now = clock_millis();
        let ms = self.elapsed_ms_at(now);
        assert(self.elapsed_ms_at_spec(now) == ms);
        ms
    }

    /// What `elapsed_ms_at` gives for the reading `now_ms`.
    pub open spec fn elapsed_ms_at_spec(self, now_ms: u64) -> u64 {
        if now_ms >= self.start() {
            (now_ms - self.start()) as u64
        } else {
            0
        }
    }

    /// Restarts the timer at the clock reading `now_ms`.
    pub fn reset_at(&mut self, now_ms: u64)
        ensures
            final(self).start() == now_ms,
            final(self).label() == old(self).label(),
    {
        self.start_ms = now_ms;
    }

    /// Restarts the timer now.
    pub fn reset(&mut self)
        ensures
            final(self).label() == old(self).label(),
    {
        let now = clock_millis();
        self.reset_at(now);
    }
}

/// A cached value and the second it was stored at.
pub struct CacheEntry {
    pub value: String,
    pub timestamp: u64,
}

/// An entry stored at `timestamp` is still fresh at `now` under `ttl`.
pub open spec fn is_fresh(timestamp: u64, now: u64, ttl: u64) -> bool {
    timestamp <= now && now - timestamp < ttl
}

/// The entries of `s` that are still fresh at `now`, in order.
pub open spec fn fresh_only(s: Seq<(Seq<char>, (Seq<char>, u64))>, now: u64, ttl: u64) -> Seq<
    (Seq<char>, (Seq<char>, u64)),
>
    decreases s.len(),
{
    if s.len() == 0 {
        s
    } else {
        let before = fresh_only(s.drop_last(), now, ttl);
        if is_fresh(s.last().1.1, now, ttl) {
            before.push(s.last())
        } else {
            before
        }
    }
}

/// `i` is the first position holding the smallest timestamp of `s`.
pub open spec fn is_oldest(s: Seq<(Seq<char>, (Seq<char>, u64))>, i: int) -> bool {
    &&& 0 <= i < s.len()
    &&& forall|j: int| 0 <= j < s.len() ==> s[i].1.1 <= #[trigger] s[j].1.1
    &&& forall|j: int| 0 <= j < i ==> s[i].1.1 < #[trigger] s[j].1.1
}

/// The first position of the oldest entry of `s`.
pub open spec fn oldest_index(s: Seq<(Seq<char>, (Seq<char>, u64))>) -> int {
    choose|i: int| is_oldest(s, i)
}

/// The entries after storing `value` under `key` at `now`: expired entries
/// go, then the oldest one if `max_size` are still held, then the key is
/// written in place or appended.
pub open spec fn cache_after_set(
    s: Seq<(Seq<char>, (Seq<char>, u64))>,
    max_size: usize,
    ttl: u64,
    key: Seq<char>,
    value: Seq<char>,
    now: u64,
) -> Seq<(Seq<char>, (Seq<char>, u64))> {
    let kept = fresh_only(s, now, ttl);
    let room = if kept.len() >= max_size && kept.len() > 0 {
        kept.remove(oldest_index(kept))
    } else {
        kept
    };
    if has_key(room, key) {
        room.update(crate::kv::key_index(room, key), (key, (value, now)))
    } else {
        room.push((key, (value, now)))
    }
}

/// What a lookup of `key` at `now` answers.
pub open spec fn cache_lookup(
    s: Seq<(Seq<char>, (Seq<char>, u64))>,
    ttl: u64,
    key: Seq<char>,
    now: u64,
) -> Option<Seq<char>> {
    if has_key(s, key) && is_fresh(as_map(s)[key].1, now, ttl) {
        Some(as_map(s)[key].0)
    } else {
        None
    }
}

/// The entries `s` after a lookup of `key` at the second `now`: the entry
/// of `key` is dropped when it is stale, the others stay.
pub open spec fn cache_after_get(
    s: Seq<(Seq<char>, (Seq<char>, u64))>,
    ttl: u64,
    key: Seq<char>,
    now: u64,
) -> Seq<(Seq<char>, (Seq<char>, u64))> {
    if has_key(s, key) && cache_lookup(s, ttl, key, now) is None {
        s.remove(crate::kv::key_index(s, key))
    } else {
        s
    }
}

/// A bounded cache whose entries expire `ttl_seconds` after they are stored.
pub struct SimpleCache {
    data: Vec<(String, CacheEntry)>,
    max_size: usize,
    ttl_seconds: u64,
}

impl SimpleCache {
    /// The entries as `(key, (value, timestamp))`, in storage order.
    pub closed spec fn entries(self) -> Seq<(Seq<char>, (Seq<char>, u64))> {
        self.data@.map_values(|e: (String, CacheEntry)| (e.0@, (e.1.value@, e.1.timestamp)))
    }

    /// No key is stored twice, and a cache with room for at least one entry
    /// holds no more entries than it has room for.
    pub closed spec fn wf(self) -> bool {
        &&& keys_distinct(self.entries())
        &&& self.max_size >= 1 ==> self.entries().len() <= self.max_size
    }

    /// The number of entries the cache makes room for.
    pub closed spec fn capacity(self) -> usize {
        self.max_size
    }

    /// How many seconds an entry stays fresh.
    pub closed spec fn ttl(self) -> u64 {
        self.ttl_seconds
    }

    /// An empty cache.
    pub fn new(max_size: usize, ttl_seconds: u64) -> (c: Self)
        ensures
            c.wf(),
            c.entries() == Seq::<(Seq<char>, (Seq<char>, u64))>::empty(),
            c.capacity() == max_size,
            c.ttl() == ttl_seconds,
    {
        let c = SimpleCache { data: Vec::new(), max_size, ttl_seconds };
        assert(c.entries() =~= Seq::<(Seq<char>, (Seq<char>, u64))>::empty());
        c
    }

    /// The number of entries held.
    pub fn len(&self) -> (n: usize)
        ensures
            n == self.entries().len(),
            self.wf() && self.capacity() >= 1 ==> n <= self.capacity(),
    {
        self.data.len()
    }

    /// The value of `key` if it is still fresh at the second `now`; a stale
    /// entry for `key` is dropped.
    pub fn get_at(&mut self, key: &str, now: u64) -> (r: Option<String>)
        requires
            old(self).wf(),
        ensures
            final(self).wf(),
            final(self).capacity() == old(self).capacity(),
            final(self).ttl() == old(self).ttl(),
            match r {
                Some(v) => cache_lookup(old(self).entries(), old(self).ttl(), key@, now) == Some(
                    v@,
                ),
                None => cache_lookup(old(self).entries(), old(self).ttl(), key@, now) is None,
            },
            final(self).entries() == (if has_key(old(self).entries(), key@) && cache_lookup(
                old(self).entries(),
                old(self).ttl(),
                key@,
                now,
            ) is None {
                old(self).entries().remove(crate::kv::key_index(old(self).entries(), key@))
            } else {
                old(self).entries()
            }),
    {
        let ghost e = self.entries();
        match find_key(&self.data, key) {
            Some(i) => {
                proof {
                    crate::kv::lemma_as_map_at(e, i as int);
                }
                let ts = self.data[i].1.timestamp;
                if ts <= now && now - ts < self.ttl_seconds {
                    Some(self.data[i].1.value.clone())
                } else {
                    self.data.remove(i);
                    proof {
                        assert(self.entries() =~= e.remove(i as int));
                        crate::kv::lemma_as_map_remove(e, i as int);
                    }
                    None
                }
            },
            None => {
                proof {
                    if has_key(e, key@) {
                        let j = crate::kv::key_index(e, key@);
                        assert(self.data@[j].0@ == key@);
                    }
                }
                None
            },
        }
    }

    /// The value of `key` if it is still fresh now, by the system clock.
    pub fn get(&mut self, key: &str) -> (r: Option<String>)
        requires
            old(self).wf(),
        ensures
            final(self).wf(),
            final(self).capacity() == old(self).capacity(),
            final(self).ttl() == old(self).ttl(),
            exists|now: u64|
                #![trigger cache_lookup(old(self).entries(), old(self).ttl(), key@, now)]
                match r {
                    Some(v) => cache_lookup(old(self).entries(), old(self).ttl(), key@, now)
                        == Some(v@),
                    None => cache_lookup(old(self).entries(), old(self).ttl(), key@, now) is None,
                } && final(self).entries() == cache_after_get(old(self).entries(), old(self).ttl(), key@, now),
    {
        let now = clock_millis() / 1000;
        let r = self.get_at(key, now);
        assert(final(self).entries() == cache_after_get(old(self).entries(), old(self).ttl(), key@, now));
        assert(match r {
            Some(v) => cache_lookup(old(self).entries(), old(self).ttl(), key@, now) == Some(v@),
            None => cache_lookup(old(self).entries(), old(self).ttl(), key@, now) is None,
        });
        r
    }

    /// Drops the entries that are no longer fresh at `now`.
    fn cleanup_expired(&mut self, now: u64)
        requires
            old(self).wf(),
        ensures
            final(self).wf(),
            final(self).capacity() == old(self).capacity(),
            final(self).ttl() == old(self).ttl(),
            final(self).entries() == fresh_only(old(self).entries(), now, old(self).ttl()),
    {
        let ghost e = self.entries();
        let ghost ttl = self.ttl_seconds;
        let mut i: usize = 0;
        let ghost mut k: int = 0;
        assert(e.take(0) =~= Seq::<(Seq<char>, (Seq<char>, u64))>::empty());
        assert(self.entries() =~= fresh_only(e.take(0), now, ttl) + e.skip(0));
        while i < self.data.len()
            invariant
                0 <= k <= e.len(),
                self.wf(),
                self.max_size == old(self).max_size,
                self.ttl_seconds == ttl,
                ttl == old(self).ttl(),
                e == old(self).entries(),
                i == fresh_only(e.take(k), now, ttl).len(),
                self.entries() == fresh_only(e.take(k), now, ttl) + e.skip(k),
            decreases self.data.len() - i,
        {
            let ghost d = self.entries();
            assert(d[i as int] == e[k]);
            assert(e.take(k + 1).drop_last() =~= e.take(k));
            assert(e.take(k + 1).last() == e[k]);
            let ts = self.data[i].1.timestamp;
            if ts <= now && now - ts < self.ttl_seconds {
                assert(d =~= fresh_only(e.take(k + 1), now, ttl) + e.skip(k + 1));
                i = i + 1;
            } else {
                self.data.remove(i);
                proof {
                    assert(self.entries() =~= d.remove(i as int));
                    crate::kv::lemma_as_map_remove(d, i as int);
                    assert(self.entries() =~= fresh_only(e.take(k + 1), now, ttl) + e.skip(k + 1));
                }
            }
            proof {
                k = k + 1;
            }
        }
        proof {
            assert(k == e.len());
            assert(e.take(k) =~= e);
            assert(self.entries() =~= fresh_only(e, now, ttl));
        }
    }

    /// The first position of the oldest entry; the cache is not empty.
    fn find_oldest(&self) -> (i: usize)
        requires
            self.entries().len() > 0,
        ensures
            is_oldest(self.entries(), i as int),
    {
        let ghost e = self.entries();
        let mut best: usize = 0;
        let mut j: usize = 1;
        while j < self.data.len()
            invariant
                e == self.entries(),
                0 <= best < j <= self.data.len(),
                forall|q: int| 0 <= q < j ==> e[best as int].1.1 <= #[trigger] e[q].1.1,
                forall|q: int| 0 <= q < best ==> e[best as int].1.1 < #[trigger] e[q].1.1,
            decreases self.data.len() - j,
        {
            if self.data[j].1.timestamp < self.data[best].1.timestamp {
                best = j;
            }
            j = j + 1;
        }
        best
    }

    /// Stores `value` under `key` at the second `now`: expired entries go,
    /// then the oldest entry if the cache is full, then the key is written.
    pub fn set_at(&mut self, key: String, value: String, now: u64)
        requires
            old(self).wf(),
        ensures
            final(self).wf(),
            final(self).capacity() == old(self).capacity(),
            final(self).ttl() == old(self).ttl(),
            final(self).entries() == cache_after_set(
                old(self).entries(),
                old(self).capacity(),
                old(self).ttl(),
                key@,
                value@,
                now,
            ),
    {
        self.cleanup_expired(now);
        let ghost kept = self.entries();
        if self.data.len() >= self.max_size && self.data.len() > 0 {
            let oldest = self.find_oldest();
            proof {
                let o = oldest_index(kept);
                assert(is_oldest(kept, o));
                if o < oldest {
                    assert(kept[oldest as int].1.1 < kept[o].1.1);
                }
                if oldest < o {
                    assert(kept[o].1.1 < kept[oldest as int].1.1);
                }
                assert(o == oldest);
            }
            self.data.remove(oldest);
            proof {
                assert(self.entries() =~= kept.remove(oldest as int));
                crate::kv::lemma_as_map_remove(kept, oldest as int);
            }
        }
        let ghost room = self.entries();
        let ghost kv = (key@, (value@, now));
        match find_key(&self.data, key.as_str()) {
            Some(i) => {
                proof {
                    crate::kv::lemma_as_map_at(room, i as int);
                }
                self.data.set(i, (key, CacheEntry { value, timestamp: now }));
                proof {
                    assert(self.entries() =~= room.update(i as int, (room[i as int].0, kv.1)));
                    crate::kv::lemma_as_map_update(room, i as int, kv.1);
                }
            },
            None => {
                proof {
                    if has_key(room, kv.0) {
                        let j = crate::kv::key_index(room, kv.0);
                        assert(self.data@[j].0@ == kv.0);
                    }
                }
                self.data.push((key, CacheEntry { value, timestamp: now }));
                proof {
                    assert(self.entries() =~= room.push(kv));
                    lemma_as_map_push(room, kv.0, kv.1);
                }
            },
        }
    }

    /// Stores `value` under `key`, stamped with the system clock.
    pub fn set(&mut self, key: String, value: String)
        requires
            old(self).wf(),
        ensures
            final(self).wf(),
            final(self).capacity() == old(self).capacity(),
            final(self).ttl() == old(self).ttl(),
            exists|now: u64|
                #![trigger cache_after_set(old(self).entries(), old(self).capacity(), old(self).ttl(), key@, value@, now)]
                final(self).entries() == cache_after_set(
                    old(self).entries(),
                    old(self).capacity(),
                    old(self).ttl(),
                    key@,
                    value@,
                    now,
                ),
    {
        let now = clock_millis() / 1000;
        self.set_at(key, value, now);
    }
}

/// What `fresh_only` keeps: no more than it is given, only fresh entries,
/// each one of the given entries, and no key twice if none was.
pub proof fn lemma_fresh_only(s: Seq<(Seq<char>, (Seq<char>, u64))>, now: u64, ttl: u64)
    ensures
        fresh_only(s, now, ttl).len() <= s.len(),
        forall|a: int|
            0 <= a < fresh_only(s, now, ttl).len() ==> is_fresh(
                (#[trigger] fresh_only(s, now, ttl)[a]).1.1,
                now,
                ttl,
            ),
        forall|a: int|
            0 <= a < fresh_only(s, now, ttl).len() ==> exists|j: int|
                0 <= j < s.len() && s[j] == #[trigger] fresh_only(s, now, ttl)[a],
        keys_distinct(s) ==> keys_distinct(fresh_only(s, now, ttl)),
    decreases s.len(),
{
    if s.len() > 0 {
        let p = s.drop_last();
        lemma_fresh_only(p, now, ttl);
        let fp = fresh_only(p, now, ttl);
        let f = fresh_only(s, now, ttl);
        assert forall|a: int| 0 <= a < fp.len() implies exists|j: int|
            0 <= j < s.len() && s[j] == #[trigger] fp[a] by {
            let j = choose|j: int| 0 <= j < p.len() && p[j] == fp[a];
            assert(s[j] == fp[a]);
        }
        if keys_distinct(s) {
            assert(keys_distinct(p)) by {
                assert forall|x: int, y: int| 0 <= x < y < p.len() implies #[trigger] p[x].0
                    != #[trigger] p[y].0 by {
                    assert(s[x].0 != s[y].0);
                }
            }
            if is_fresh(s.last().1.1, now, ttl) {
                assert forall|x: int, y: int| 0 <= x < y < f.len() implies #[trigger] f[x].0
                    != #[trigger] f[y].0 by {
                    if y == fp.len() {
                        let j = choose|j: int| 0 <= j < p.len() && p[j] == fp[x];
                        assert(s[j].0 != s[s.len() - 1].0);
                    } else {
                        assert(fp[x].0 != fp[y].0);
                    }
                }
            }
        }
    }
}

/// A value stored at `now` is what a lookup at `now` answers, as long as
/// entries live for at least a second.
pub proof fn lemma_cache_set_then_get(
    s: Seq<(Seq<char>, (Seq<char>, u64))>,
    max_size: usize,
    ttl: u64,
    key: Seq<char>,
    value: Seq<char>,
    now: u64,
)
    requires
        keys_distinct(s),
        ttl > 0,
    ensures
        keys_distinct(cache_after_set(s, max_size, ttl, key, value, now)),
        cache_lookup(cache_after_set(s, max_size, ttl, key, value, now), ttl, key, now) == Some(
            value,
        ),
{
    let kept = fresh_only(s, now, ttl);
    lemma_fresh_only(s, now, ttl);
    let room = if kept.len() >= max_size && kept.len() > 0 {
        kept.remove(oldest_index(kept))
    } else {
        kept
    };
    if kept.len() >= max_size && kept.len() > 0 {
        let o = oldest_index(kept);
        lemma_oldest_exists(kept);
        crate::kv::lemma_as_map_remove(kept, o);
    }
    let t = cache_after_set(s, max_size, ttl, key, value, now);
    if has_key(room, key) {
        let i = crate::kv::key_index(room, key);
        crate::kv::lemma_as_map_at(room, i);
        crate::kv::lemma_as_map_update(room, i, (value, now));
    } else {
        lemma_as_map_push(room, key, (value, now));
    }
    assert(as_map(t).contains_key(key));
}

/// A non-empty table has an oldest entry.
pub proof fn lemma_oldest_exists(s: Seq<(Seq<char>, (Seq<char>, u64))>)
    requires
        s.len() > 0,
    ensures
        is_oldest(s, oldest_index(s)),
    decreases s.len(),
{
    let p = s.drop_last();
    if p.len() == 0 {
        assert(is_oldest(s, 0));
    } else {
        lemma_oldest_exists(p);
        let o = oldest_index(p);
        if s.last().1.1 < p[o].1.1 {
            let w = s.len() - 1;
            assert forall|j: int| 0 <= j < s.len() implies s[w].1.1 <= #[trigger] s[j].1.1 by {
                if j < w {
                    assert(p[o].1.1 <= p[j].1.1);
                }
            }
            assert forall|j: int| 0 <= j < w implies s[w].1.1 < #[trigger] s[j].1.1 by {
                assert(p[o].1.1 <= p[j].1.1);
            }
            assert(is_oldest(s, w));
        } else {
            assert forall|j: int| 0 <= j < s.len() implies s[o].1.1 <= #[trigger] s[j].1.1 by {
                if j < s.len() - 1 {
                    assert(p[o].1.1 <= p[j].1.1);
                }
            }
            assert forall|j: int| 0 <= j < o implies s[o].1.1 < #[trigger] s[j].1.1 by {
                assert(p[o].1.1 < p[j].1.1);
            }
            assert(is_oldest(s, o));
        }
    }
}

/// A cache that holds at most `max_size` entries (`max_size` at least 1)
/// still does after a store, and everything it holds then is fresh.
pub proof fn lemma_cache_bounded(
    s: Seq<(Seq<char>, (Seq<char>, u64))>,
    max_size: usize,
    ttl: u64,
    key: Seq<char>,
    value: Seq<char>,
    now: u64,
)
    requires
        keys_distinct(s),
        1 <= max_size,
        s.len() <= max_size,
        ttl > 0,
    ensures
        cache_after_set(s, max_size, ttl, key, value, now).len() <= max_size,
        forall|i: int|
            0 <= i < cache_after_set(s, max_size, ttl, key, value, now).len() ==> is_fresh(
                (#[trigger] cache_after_set(s, max_size, ttl, key, value, now)[i]).1.1,
                now,
                ttl,
            ),
{
    let kept = fresh_only(s, now, ttl);
    lemma_fresh_only(s, now, ttl);
    let room = if kept.len() >= max_size && kept.len() > 0 {
        kept.remove(oldest_index(kept))
    } else {
        kept
    };
    let t = cache_after_set(s, max_size, ttl, key, value, now);
    if kept.len() > 0 {
        lemma_oldest_exists(kept);
    }
    assert forall|i: int| 0 <= i < room.len() implies is_fresh((#[trigger] room[i]).1.1, now, ttl) by {
        if kept.len() >= max_size && kept.len() > 0 {
            let o = oldest_index(kept);
            lemma_oldest_exists(kept);
            if i < o {
                assert(room[i] == kept[i]);
            } else {
                assert(room[i] == kept[i + 1]);
            }
        }
    }
    if has_key(room, key) {
        let i = crate::kv::key_index(room, key);
        assert forall|q: int| 0 <= q < t.len() implies is_fresh((#[trigger] t[q]).1.1, now, ttl) by {
            if q != i {
                assert(t[q] == room[q]);
            }
        }
    } else {
        assert forall|q: int| 0 <= q < t.len() implies is_fresh((#[trigger] t[q]).1.1, now, ttl) by {
            if q < room.len() {
                assert(t[q] == room[q]);
            }
        }
    }
}

/// Timing samples, in milliseconds, grouped by operation name.
pub struct PerformanceMonitor {
    measurements: Vec<(String, Vec<u64>)>,
}

/// The samples of `name` after one more sample `ms`.
pub open spec fn with_sample(m: Map<Seq<char>, Seq<u64>>, name: Seq<char>, ms: u64) -> Map<
    Seq<char>,
    Seq<u64>,
> {
    m.insert(
        name,
        if m.contains_key(name) {
            m[name].push(ms)
        } else {
            seq![ms]
        },
    )
}

impl PerformanceMonitor {
    /// The samples as `(name, durations)` pairs in storage order.
    pub closed spec fn entries(self) -> Seq<(Seq<char>, Seq<u64>)> {
        self.measurements@.map_values(|e: (String, Vec<u64>)| (e.0@, e.1@))
    }

    /// No name is stored twice.
    pub closed spec fn wf(self) -> bool {
        keys_distinct(self.entries())
    }

    /// The samples of each name, oldest first.
    pub closed spec fn samples(self) -> Map<Seq<char>, Seq<u64>> {
        as_map(self.entries())
    }

    /// A monitor with no samples.
    pub fn new() -> (m: Self)
        ensures
            m.wf(),
            m.samples() == Map::<Seq<char>, Seq<u64>>::empty(),
    {
        let m = PerformanceMonitor { measurements: Vec::new() };
        assert(m.entries() =~= Seq::<(Seq<char>, Seq<u64>)>::empty());
        assert(m.samples() =~= Map::<Seq<char>, Seq<u64>>::empty());
        m
    }

    /// Adds the sample `ms` to `name`.
    pub fn record(&mut self, name: &str, ms: u64)
        requires
            old(self).wf(),
        ensures
            final(self).wf(),
            final(self).samples() == with_sample(old(self).samples(), name@, ms),
    {
        let ghost e = self.entries();
        match find_key(&self.measurements, name) {
            Some(i) => {
                proof {
                    crate::kv::lemma_as_map_at(e, i as int);
                }
                let mut list = self.measurements[i].1.clone();
                let ghost old_list = e[i as int].1;
                proof {
                    assert(list@ == old_list) by {
                        assert(self.measurements@[i as int].1@ == old_list);
                    }
                }
                list.push(ms);
                let k = self.measurements[i].0.clone();
                self.measurements.set(i, (k, list));
                proof {
                    assert(self.entries() =~= e.update(i as int, (e[i as int].0, old_list.push(ms))));
                    lemma_as_map_update(e, i as int, old_list.push(ms));
                }
            },
            None => {
                proof {
                    if has_key(e, name@) {
                        let j = crate::kv::key_index(e, name@);
                        assert(self.measurements@[j].0@ == name@);
                    }
                }
                let mut list: Vec<u64> = Vec::new();
                list.push(ms);
                self.measurements.push((String::from_str(name), list));
                proof {
                    assert(self.entries() =~= e.push((name@, seq![ms])));
                    lemma_as_map_push(e, name@, seq![ms]);
                }
            },
        }
    }

    /// Runs `f`, records how many milliseconds it took under `name`, and
    /// returns its result.
    pub fn measure<F: FnOnce() -> R, R>(&mut self, name: &str, f: F) -> (r: R)
        requires
            old(self).wf(),
            f.requires(()),
        ensures
            final(self).wf(),
            f.ensures((), r),
            exists|ms: u64| #[trigger] with_sample(old(self).samples(), name@, ms) == final(self).samples(),
    {
        let start = clock_millis();
        let r = f();
        let end = clock_millis();
        let ms = end.saturating_sub(start);
        self.record(name, ms);
        assert(with_sample(old(self).samples(), name@, ms) == self.samples());
        r
    }

    /// The samples recorded under `name`, oldest first.
    pub fn samples_of(&self, name: &str) -> (r: Option<&Vec<u64>>)
        requires
            self.wf(),
        ensures
            match r {
                Some(v) => self.samples().contains_key(name@) && self.samples()[name@] == v@,
                None => !self.samples().contains_key(name@),
            },
    {
        match find_key(&self.measurements, name) {
            Some(i) => {
                proof {
                    crate::kv::lemma_as_map_at(self.entries(), i as int);
                }
                Some(&self.measurements[i].1)
            },
            None => {
                proof {
                    if has_key(self.entries(), name@) {
                        let j = crate::kv::key_index(self.entries(), name@);
                        assert(self.measurements@[j].0@ == name@);
                    }
                }
                None
            },
        }
    }
}

} // verus!
