//! The matcher side of the picker: item templates, columns and snapshots.
use vstd::prelude::*;

use crate::render::{text_string, StyledText};
use crate::strings::{chars_of, push_str, str_eq, string_push};

verus! {

/// The state of the template reader: plain text, inside `{..}`, or after `\`.
pub enum TemplateState {
    Normal,
    InKey,
    Escape,
}

/// The value of column `key` among `(name, raw value)` pairs: the first
/// column with that name, or nothing (also when it has no value).
pub open spec fn column_value(columns: Seq<(Seq<char>, Option<Seq<char>>)>, key: Seq<char>) -> Seq<char>
    decreases columns.len(),
{
    if columns.len() == 0 {
        Seq::empty()
    } else if columns[0].0 == key {
        match columns[0].1 {
            Some(v) => v,
            None => Seq::empty(),
        }
    } else {
        column_value(columns.drop_first(), key)
    }
}

/// The text a `{key}` is replaced by: the blank replacement for `{}`, else
/// the column's value; quoted in `'` when asked.
pub open spec fn replacement(
    key: Seq<char>,
    quote: bool,
    blank: Seq<char>,
    columns: Seq<(Seq<char>, Option<Seq<char>>)>,
) -> Seq<char> {
    let r = if key.len() == 0 {
        blank
    } else {
        column_value(columns, key)
    };
    if quote {
        seq!['\''] + r + seq!['\'']
    } else {
        r
    }
}

/// Reading the template up to its end: the output so far, the state, and the key being read.
pub open spec fn template_run(
    t: Seq<char>,
    quote: bool,
    blank: Seq<char>,
    columns: Seq<(Seq<char>, Option<Seq<char>>)>,
) -> (Seq<char>, TemplateState, Seq<char>)
    decreases t.len(),
{
    if t.len() == 0 {
        (Seq::empty(), TemplateState::Normal, Seq::empty())
    } else {
        let (out, state, key) = template_run(t.drop_last(), quote, blank, columns);
        let c = t.last();
        match state {
            TemplateState::Normal => if c == '\\' {
                (out, TemplateState::Escape, key)
            } else if c == '{' {
                (out, TemplateState::InKey, key)
            } else {
                (out.push(c), TemplateState::Normal, key)
            },
            TemplateState::Escape => (out.push(c), TemplateState::Normal, key),
            TemplateState::InKey => if c == '}' {
                (out + replacement(key, quote, blank, columns), TemplateState::Normal, Seq::empty())
            } else {
                (out, TemplateState::InKey, key.push(c))
            },
        }
    }
}

/// The rendered template: an unfinished `{key` is kept as written.
pub open spec fn template_output(
    t: Seq<char>,
    quote: bool,
    blank: Seq<char>,
    columns: Seq<(Seq<char>, Option<Seq<char>>)>,
) -> Seq<char> {
    let (out, state, key) = template_run(t, quote, blank, columns);
    if key.len() > 0 {
        out + seq!['{'] + key
    } else {
        out
    }
}

pub open spec fn columns_view(columns: Seq<(String, Option<String>)>) -> Seq<(Seq<char>, Option<Seq<char>>)> {
    columns.map_values(|c: (String, Option<String>)| (c.0@, match c.1 {
        Some(v) => Some(v@),
        None => None,
    }))
}

fn lookup(columns: &Vec<(String, Option<String>)>, key: &str) -> (r: Vec<char>)
    ensures
        r@ == column_value(columns_view(columns@), key@),
{
    let ghost cv = columns_view(columns@);
    proof {
        assert(cv.subrange(0, cv.len() as int) =~= cv);
    }
    let mut i: usize = 0;
    while i < columns.len()
        invariant
            i <= columns@.len(),
            cv == columns_view(columns@),
            column_value(cv, key@) == column_value(cv.subrange(i as int, cv.len() as int), key@),
        decreases columns@.len() - i,
    {
        let ghost rest = cv.subrange(i as int, cv.len() as int);
        proof {
            assert(rest[0] == cv[i as int]);
            assert(rest.drop_first() =~= cv.subrange(i as int + 1, cv.len() as int));
        }
        if str_eq(columns[i].0.as_str(), key) {
            match &columns[i].1 {
                Some(v) => {
                    return chars_of(v.as_str());
                },
                None => {
                    return Vec::new();
                },
            }
        }
        i = i + 1;
    }
    Vec::new()
}

/// Renders `template` for one item: `{name}` is replaced by the raw value of
/// the column called `name` (nothing when there is none), `{}` by `blank`,
/// `\c` stands for `c`; with `quote`, each replacement is wrapped in `'`.
pub fn render_template(
    template: &str,
    quote: bool,
    blank: &str,
    columns: &Vec<(String, Option<String>)>,
) -> (r: String)
    ensures
        r@ == template_output(template@, quote, blank@, columns_view(columns@)),
{
    let ghost cv = columns_view(columns@);
    let t = chars_of(template);
    let mut result = String::new();
    let mut state = TemplateState::Normal;
    let mut key: Vec<char> = Vec::new();
    let mut i: usize = 0;
    while i < t.len()
        invariant
            t@ == template@,
            i <= t@.len(),
            cv == columns_view(columns@),
            template_run(template@.take(i as int), quote, blank@, cv) == (result@, state, key@),
        decreases t@.len() - i,
    {
        let c = t[i];
        proof {
            assert(template@.take(i as int + 1).drop_last() =~= template@.take(i as int));
        }
        match state {
            TemplateState::Normal => {
                if c == '\\' {
                    state = TemplateState::Escape;
                } else if c == '{' {
                    state = TemplateState::InKey;
                } else {
                    string_push(&mut result, c);
                }
            },
            TemplateState::Escape => {
                string_push(&mut result, c);
                state = TemplateState::Normal;
            },
            TemplateState::InKey => {
                if c == '}' {
                    let ghost before = result@;
                    let k = crate::strings::string_of(&key, 0, key.len());
                    proof {
                        assert(key@.subrange(0, key@.len() as int) =~= key@);
                    }
                    if quote {
                        string_push(&mut result, '\'');
                    }
                    if key.len() == 0 {
                        push_str(&mut result, blank);
                    } else {
                        let v = lookup(columns, k.as_str());
                        let vs = crate::strings::string_of(&v, 0, v.len());
                        proof {
                            assert(v@.subrange(0, v@.len() as int) =~= v@);
                        }
                        push_str(&mut result, vs.as_str());
                    }
                    if quote {
                        string_push(&mut result, '\'');
                    }
                    proof {
                        assert(result@ =~= before + replacement(key@, quote, blank@, cv));
                    }
                    key = Vec::new();
                    proof {
                        assert(key@ =~= Seq::<char>::empty());
                    }
                    state = TemplateState::Normal;
                } else {
                    key.push(c);
                }
            },
        }
        i = i + 1;
    }
    proof {
        assert(template@.take(t@.len() as int) =~= template@);
    }
    if key.len() > 0 {
        string_push(&mut result, '{');
        let k = crate::strings::string_of(&key, 0, key.len());
        proof {
            assert(key@.subrange(0, key@.len() as int) =~= key@);
        }
        push_str(&mut result, k.as_str());
    }
    result
}

/// Reading plain text (no `{` and no `\\`) keeps it as it is.
proof fn lemma_plain_run(
    p: Seq<char>,
    quote: bool,
    blank: Seq<char>,
    columns: Seq<(Seq<char>, Option<Seq<char>>)>,
)
    requires
        forall|i: int| 0 <= i < p.len() ==> p[i] != '{' && p[i] != '\\',
    ensures
        template_run(p, quote, blank, columns) == (p, TemplateState::Normal, Seq::<char>::empty()),
    decreases p.len(),
{
    if p.len() > 0 {
        lemma_plain_run(p.drop_last(), quote, blank, columns);
        assert(p.drop_last().push(p.last()) =~= p);
    }
}

/// Reading `{` and then key characters (no `}`) leaves the key open.
proof fn lemma_open_key_run(
    k: Seq<char>,
    quote: bool,
    blank: Seq<char>,
    columns: Seq<(Seq<char>, Option<Seq<char>>)>,
)
    requires
        forall|i: int| 0 <= i < k.len() ==> k[i] != '}',
    ensures
        template_run(seq!['{'] + k, quote, blank, columns) == (Seq::<char>::empty(), TemplateState::InKey, k),
    decreases k.len(),
{
    if k.len() == 0 {
        assert(seq!['{'] + k =~= seq!['{']);
        assert(seq!['{'].drop_last() =~= Seq::<char>::empty());
        assert(template_run(Seq::<char>::empty(), quote, blank, columns) == (Seq::<char>::empty(), TemplateState::Normal, Seq::<char>::empty()));
        assert(seq!['{'].last() == '{');
    } else {
        lemma_open_key_run(k.drop_last(), quote, blank, columns);
        assert((seq!['{'] + k).drop_last() =~= seq!['{'] + k.drop_last());
        assert((seq!['{'] + k).last() == k[k.len() - 1]);
        assert(k[k.len() - 1] != '}');
        assert(k.drop_last().push(k.last()) =~= k);
    }
}

/// After text that ends outside a key, the rest is read as if on its own,
/// its output following what came before.
proof fn lemma_run_append(
    a: Seq<char>,
    b: Seq<char>,
    quote: bool,
    blank: Seq<char>,
    columns: Seq<(Seq<char>, Option<Seq<char>>)>,
)
    requires
        template_run(a, quote, blank, columns).1 == TemplateState::Normal,
        template_run(a, quote, blank, columns).2 == Seq::<char>::empty(),
    ensures
        ({
            let o = template_run(a, quote, blank, columns).0;
            let rb = template_run(b, quote, blank, columns);
            template_run(a + b, quote, blank, columns) == (o + rb.0, rb.1, rb.2)
        }),
    decreases b.len(),
{
    let o = template_run(a, quote, blank, columns).0;
    if b.len() == 0 {
        assert(a + b =~= a);
        assert(o + Seq::<char>::empty() =~= o);
    } else {
        lemma_run_append(a, b.drop_last(), quote, blank, columns);
        assert((a + b).drop_last() =~= a + b.drop_last());
        assert((a + b).last() == b.last());
        let rp = template_run(b.drop_last(), quote, blank, columns);
        let c = b.last();
        assert((o + rp.0).push(c) =~= o + rp.0.push(c));
        assert((o + rp.0) + replacement(rp.2, quote, blank, columns) =~= o + (rp.0 + replacement(
            rp.2,
            quote,
            blank,
            columns,
        )));
    }
}

/// How a template renders, piece by piece: plain text (no `{`, no `\\`)
/// is kept; `\\c` gives `c`; `{}` gives the blank replacement and `{name}`
/// the raw value of the first column called `name` (nothing when no column
/// has that name or it has no value), each wrapped in `'` when quoting;
/// and after a piece that ends outside a key, the rest renders on its own,
/// after it.
#[verifier::rlimit(40)]
pub proof fn law_template_renders_piece_by_piece(
    p: Seq<char>,
    c: char,
    k: Seq<char>,
    rest: Seq<char>,
    quote: bool,
    blank: Seq<char>,
    columns: Seq<(Seq<char>, Option<Seq<char>>)>,
)
    ensures
        (forall|i: int| 0 <= i < p.len() ==> p[i] != '{' && p[i] != '\\') ==> template_output(
            p,
            quote,
            blank,
            columns,
        ) == p && template_output(p + rest, quote, blank, columns) == p + template_output(
            rest,
            quote,
            blank,
            columns,
        ),
        template_output(seq!['\\', c] + rest, quote, blank, columns) == seq![c] + template_output(
            rest,
            quote,
            blank,
            columns,
        ),
        (forall|i: int| 0 <= i < k.len() ==> k[i] != '}') ==> {
            let v = if k.len() == 0 {
                blank
            } else if exists|j: int| 0 <= j < columns.len() && columns[j].0 == k {
                let j = choose|j: int|
                    0 <= j < columns.len() && columns[j].0 == k && forall|i: int| 0 <= i < j ==> columns[i].0 != k;
                match columns[j].1 {
                    Some(x) => x,
                    None => Seq::empty(),
                }
            } else {
                Seq::empty()
            };
            let shown = if quote {
                seq!['\''] + v + seq!['\'']
            } else {
                v
            };
            template_output(seq!['{'] + k + seq!['}'] + rest, quote, blank, columns) == shown + template_output(
                rest,
                quote,
                blank,
                columns,
            )
        },
{
    let rr = template_run(rest, quote, blank, columns);
    if forall|i: int| 0 <= i < p.len() ==> p[i] != '{' && p[i] != '\\' {
        lemma_plain_run(p, quote, blank, columns);
        lemma_run_append(p, rest, quote, blank, columns);
    }
    let e = seq!['\\', c];
    assert(e.drop_last() =~= seq!['\\']);
    assert(seq!['\\'].drop_last() =~= Seq::<char>::empty());
    assert(template_run(e, quote, blank, columns) == (seq![c], TemplateState::Normal, Seq::<char>::empty())) by {
        assert(seq!['\\'].last() == '\\');
        assert(template_run(Seq::<char>::empty(), quote, blank, columns) == (Seq::<char>::empty(), TemplateState::Normal, Seq::<char>::empty()));
        assert(template_run(seq!['\\'], quote, blank, columns) == (Seq::<char>::empty(), TemplateState::Escape, Seq::<char>::empty()));
        assert(e.last() == c);
        assert(Seq::<char>::empty().push(c) =~= seq![c]);
    }
    lemma_run_append(e, rest, quote, blank, columns);
    if forall|i: int| 0 <= i < k.len() ==> k[i] != '}' {
        lemma_open_key_run(k, quote, blank, columns);
        let kk = seq!['{'] + k + seq!['}'];
        assert(kk.drop_last() =~= seq!['{'] + k);
        assert(template_run(kk, quote, blank, columns) == (replacement(k, quote, blank, columns), TemplateState::Normal, Seq::<char>::empty())) by {
            assert(Seq::<char>::empty() + replacement(k, quote, blank, columns) =~= replacement(k, quote, blank, columns));
        }
        lemma_run_append(kk, rest, quote, blank, columns);
        if k.len() > 0 {
            lemma_column_value_first(columns, k);
        }
    }
}

/// A column's value is that of the first column with the name.
proof fn lemma_column_value_first(columns: Seq<(Seq<char>, Option<Seq<char>>)>, k: Seq<char>)
    ensures
        (exists|j: int| 0 <= j < columns.len() && columns[j].0 == k) ==> {
            let j = choose|j: int|
                0 <= j < columns.len() && columns[j].0 == k && forall|i: int| 0 <= i < j ==> columns[i].0 != k;
            &&& 0 <= j < columns.len() && columns[j].0 == k && forall|i: int| 0 <= i < j ==> columns[i].0 != k
            &&& column_value(columns, k) == match columns[j].1 {
                Some(x) => x,
                None => Seq::<char>::empty(),
            }
        },
        !(exists|j: int| 0 <= j < columns.len() && columns[j].0 == k) ==> column_value(columns, k)
            == Seq::<char>::empty(),
    decreases columns.len(),
{
    if columns.len() > 0 {
        lemma_column_value_first(columns.drop_first(), k);
        let d = columns.drop_first();
        if columns[0].0 == k {
            assert(forall|i: int| 0 <= i < 0 ==> columns[i].0 != k);
            let j = choose|j: int|
                0 <= j < columns.len() && columns[j].0 == k && forall|i: int| 0 <= i < j ==> columns[i].0 != k;
            if j > 0 {
                assert(columns[0].0 != k);
            }
        } else {
            if exists|j: int| 0 <= j < columns.len() && columns[j].0 == k {
                let w = choose|j: int| 0 <= j < columns.len() && columns[j].0 == k;
                assert(d[w - 1].0 == k);
                let jd = choose|j: int| 0 <= j < d.len() && d[j].0 == k && forall|i: int| 0 <= i < j ==> d[i].0 != k;
                assert(forall|i: int| 0 <= i < jd + 1 ==> columns[i].0 != k) by {
                    assert forall|i: int| 0 <= i < jd + 1 implies columns[i].0 != k by {
                        if i > 0 {
                            assert(columns[i] == d[i - 1]);
                        }
                    }
                }
                assert(columns[jd + 1] == d[jd]);
                let j = choose|j: int|
                    0 <= j < columns.len() && columns[j].0 == k && forall|i: int| 0 <= i < j ==> columns[i].0 != k;
                if j < jd + 1 {
                    assert(columns[j].0 != k);
                } else if j > jd + 1 {
                    assert(columns[jd + 1].0 != k);
                }
            } else {
                assert forall|j: int| 0 <= j < d.len() implies d[j].0 != k by {
                    assert(d[j] == columns[j + 1]);
                }
            }
        }
    }
}


// ------------------------------------------------------------------------
// Snapshots of the matcher

/// The state of the matcher after a tick.
#[derive(Debug, Clone, Copy, PartialEq, Eq)]
pub struct Status {
    pub item_count: u32,
    pub matched_count: u32,
    pub running: bool,
    pub changed: bool,
}

impl Default for Status {
    fn default() -> (r: Self)
        ensures
            r.item_count == 0 && r.matched_count == 0 && !r.running && !r.changed,
    {
        Status { item_count: 0, matched_count: 0, running: false, changed: false }
    }
}

/// Why the matcher could not take items.
#[derive(Debug, Clone, Copy, PartialEq, Eq)]
pub enum WorkerError {
    /// The matcher injector has been shut down.
    InjectorShutdown,
    /// Another failure, with its message.
    Custom(&'static str),
}

#[verifier::external_type_specification]
#[verifier::external_body]
#[verifier::reject_recursive_types(T)]
pub struct ExNucleo<T: Sync + Send + 'static>(nucleo::Nucleo<T>);

/// `Nucleo::tick(timeout)`: lets the matcher work for at most `timeout`
/// milliseconds and returns whether the snapshot changed and whether the
/// matcher is still running. Both depend on the matcher's worker threads
/// and on time, so nothing is stated of them.
#[verifier::external_body]
fn nucleo_tick<T: Sync + Send + 'static>(nucleo: &mut nucleo::Nucleo<T>, timeout: u64) -> (r: (bool, bool)) {
    let status = nucleo.tick(timeout);
    (status.changed, status.running)
}

/// `Nucleo::snapshot`: the matcher's current snapshot.
#[verifier::external_body]
fn nucleo_snapshot<T: Sync + Send + 'static>(nucleo: &nucleo::Nucleo<T>) -> (r: &nucleo::Snapshot<T>) {
    nucleo.snapshot()
}

/// `Snapshot::item_count` and `Snapshot::matched_item_count` (nucleo): how
/// many items the snapshot holds, and how many of them match its pattern.
/// Both depend on what the matcher's threads have done, so only what holds
/// of every snapshot is stated: the matched items are among those held.
#[verifier::external_body]
fn snapshot_counts<T: Sync + Send + 'static>(snapshot: &nucleo::Snapshot<T>) -> (r: (u32, u32))
    ensures
        r.1 <= r.0,
{
    (snapshot.item_count(), snapshot.matched_item_count())
}

/// Lets the matcher work for up to 10 ms, then returns its snapshot and a
/// status built from the tick (whether the snapshot changed, whether the
/// matcher still runs) and the snapshot's counts. Those come from the
/// matcher's threads and from time; what holds whatever they are is stated.
pub fn new_snapshot<T: Sync + Send + 'static>(nucleo: &mut nucleo::Nucleo<T>) -> (r: (
    &nucleo::Snapshot<T>,
    Status,
))
    ensures
        r.1.matched_count <= r.1.item_count,
{
    let (changed, running) = nucleo_tick(nucleo, 10);
    let snapshot = nucleo_snapshot(nucleo);
    let (item_count, matched_count) = snapshot_counts(snapshot);
    (snapshot, Status { item_count, matched_count, running, changed })
}


// ------------------------------------------------------------------------
// Columns

/// Types that can be shared between the matcher's threads.
pub trait SSS: Send + Sync + 'static {}

impl<T: Send + Sync + 'static> SSS for T {}

/// Formats an item of a column into styled text (any `Fn(&T, &D) -> StyledText`).
pub trait ColumnFormatFn<T, D>: Send + Sync {
    /// Whether the function may be called on `(item, d)`.
    spec fn accepts(&self, item: &T, d: &D) -> bool;

    /// Whether `out` is a possible result on `(item, d)`.
    spec fn gives(&self, item: &T, d: &D, out: StyledText) -> bool;

    fn format(&self, item: &T, d: &D) -> (r: StyledText)
        requires
            self.accepts(item, d),
        ensures
            self.gives(item, d, r),
    ;
}

impl<T, D, F: Fn(&T, &D) -> StyledText + Send + Sync> ColumnFormatFn<T, D> for F {
    open spec fn accepts(&self, item: &T, d: &D) -> bool {
        call_requires(*self, (item, d))
    }

    open spec fn gives(&self, item: &T, d: &D, out: StyledText) -> bool {
        call_ensures(*self, (item, d), out)
    }

    fn format(&self, item: &T, d: &D) -> (r: StyledText) {
        self(item, d)
    }
}

/// Gives the raw text of an item of a column (any `Fn(&T, &D) -> String`).
pub trait ColumnRawFn<T, D>: Send + Sync {
    /// Whether the function may be called on `(item, d)`.
    spec fn accepts(&self, item: &T, d: &D) -> bool;

    /// Whether `out` is a possible result on `(item, d)`.
    spec fn gives(&self, item: &T, d: &D, out: String) -> bool;

    fn raw(&self, item: &T, d: &D) -> (r: String)
        requires
            self.accepts(item, d),
        ensures
            self.gives(item, d, r),
    ;
}

impl<T, D, F: Fn(&T, &D) -> String + Send + Sync> ColumnRawFn<T, D> for F {
    open spec fn accepts(&self, item: &T, d: &D) -> bool {
        call_requires(*self, (item, d))
    }

    open spec fn gives(&self, item: &T, d: &D, out: String) -> bool {
        call_ensures(*self, (item, d), out)
    }

    fn raw(&self, item: &T, d: &D) -> (r: String) {
        self(item, d)
    }
}

/// A column of the picker: its name, how an item is shown in it, how its
/// raw text is taken, and whether the matcher filters on it.
#[verifier::reject_recursive_types(T)]
#[verifier::reject_recursive_types(D)]
pub struct Column<T, D = ()> {
    pub name: String,
    format: Box<dyn ColumnFormatFn<T, D>>,
    raw: Option<Box<dyn ColumnRawFn<T, D>>>,
    /// Whether the column should be passed to nucleo for matching and filtering.
    filter: bool,
}

impl<T, D> Column<T, D> {
    pub closed spec fn label(&self) -> Seq<char> {
        self.name@
    }

    pub closed spec fn filters(&self) -> bool {
        self.filter
    }

    pub closed spec fn has_raw(&self) -> bool {
        self.raw is Some
    }

    /// Whether showing `(item, d)` may be asked of this column.
    pub closed spec fn format_accepts(&self, item: &T, d: &D) -> bool {
        self.format.accepts(item, d)
    }

    /// Whether `out` is a possible way of showing `(item, d)`.
    pub closed spec fn format_gives(&self, item: &T, d: &D, out: StyledText) -> bool {
        self.format.gives(item, d, out)
    }

    /// Whether the raw text of `(item, d)` may be asked of this column.
    pub closed spec fn raw_accepts(&self, item: &T, d: &D) -> bool {
        match self.raw {
            Some(f) => f.accepts(item, d),
            None => self.format.accepts(item, d),
        }
    }

    /// Whether `out` is a possible raw text of `(item, d)`: what the raw
    /// function gives, or else the text of what the format function gives.
    pub closed spec fn raw_gives(&self, item: &T, d: &D, out: Seq<char>) -> bool {
        match self.raw {
            Some(f) => exists|s: String| f.gives(item, d, s) && s@ == out,
            None => exists|t: StyledText| #[trigger] self.format.gives(item, d, t) && text_string(t@) == out,
        }
    }

    /// A column that shows items with `format`, has no raw function of its
    /// own, and is filtered on.
    pub fn new_boxed(name: String, format: Box<dyn ColumnFormatFn<T, D>>) -> (r: Self)
        ensures
            r.label() == name@,
            r.filters(),
            !r.has_raw(),
            forall|item: &T, d: &D| r.format_accepts(item, d) == format.accepts(item, d),
            forall|item: &T, d: &D, out: StyledText| r.format_gives(item, d, out) == format.gives(item, d, out),
    {
        Column { name, format, filter: true, raw: None }
    }

    /// A column that shows items with `f` (see [`Self::new_boxed`]).
    pub fn new<F: Fn(&T, &D) -> StyledText + Send + Sync + 'static>(name: String, f: F) -> (r: Self)
        ensures
            r.label() == name@,
            r.filters(),
            !r.has_raw(),
            forall|item: &T, d: &D| r.format_accepts(item, d) == call_requires(f, (item, d)),
            forall|item: &T, d: &D, out: StyledText| r.format_gives(item, d, out) == call_ensures(f, (item, d), out),
    {
        let format: Box<dyn ColumnFormatFn<T, D>> = Box::new(f);
        proof {
            assert(forall|item: &T, d: &D| format.accepts(item, d) == call_requires(f, (item, d)));
        }
        Self::new_boxed(name, format)
    }

    /// The same column, taking raw text with `f`.
    pub fn with_raw<F: Fn(&T, &D) -> String + Send + Sync + 'static>(self, f: F) -> (r: Self)
        ensures
            r.label() == self.label(),
            r.filters() == self.filters(),
            r.has_raw(),
            forall|item: &T, d: &D| r.format_accepts(item, d) == self.format_accepts(item, d),
            forall|item: &T, d: &D, out: StyledText| r.format_gives(item, d, out) == self.format_gives(item, d, out),
            forall|item: &T, d: &D| r.raw_accepts(item, d) == call_requires(f, (item, d)),
            forall|item: &T, d: &D, out: Seq<char>|
                r.raw_gives(item, d, out) == exists|s: String| call_ensures(f, (item, d), s) && s@ == out,
    {
        let raw: Box<dyn ColumnRawFn<T, D>> = Box::new(f);
        proof {
            assert(forall|item: &T, d: &D| raw.accepts(item, d) == call_requires(f, (item, d)));
            assert(forall|item: &T, d: &D, s: String| raw.gives(item, d, s) == call_ensures(f, (item, d), s));
        }
        let mut c = self;
        c.raw = Some(raw);
        c
    }

    /// The same column, not filtered on.
    pub fn without_filtering(self) -> (r: Self)
        ensures
            r.label() == self.label(),
            !r.filters(),
            r.has_raw() == self.has_raw(),
            forall|item: &T, d: &D| r.format_accepts(item, d) == self.format_accepts(item, d),
            forall|item: &T, d: &D, out: StyledText| r.format_gives(item, d, out) == self.format_gives(item, d, out),
    {
        let mut c = self;
        c.filter = false;
        c
    }

    /// Whether the column is filtered on.
    pub fn filter(&self) -> (r: bool)
        ensures
            r == self.filters(),
    {
        self.filter
    }

    /// Shows `item` in this column.
    pub fn format(&self, item: &T, d: &D) -> (r: StyledText)
        requires
            self.format_accepts(item, d),
        ensures
            self.format_gives(item, d, r),
    {
        self.format.format(item, d)
    }

    /// The raw text of `item` in this column: what the raw function gives,
    /// or else the text of what the format function gives.
    pub fn raw(&self, item: &T, d: &D) -> (r: String)
        requires
            self.raw_accepts(item, d),
        ensures
            self.raw_gives(item, d, r@),
    {
        match &self.raw {
            Some(f) => f.raw(item, d),
            None => {
                let t = self.format.format(item, d);
                t.to_string()
            },
        }
    }
}

} // verus!
