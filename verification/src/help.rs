//! The key binding help: each trigger with what it does, traces standing in
//! for the actions they cover, sorted and laid out as text.
use vstd::prelude::*;

use crate::render::{plain_style, span_view, CellColor, CellStyle, StyledSpan, StyledText};
use crate::strings::{chars_of, push_str, starts_with, str_starts_with, string_of, string_push, strings_view};
use crate::tui::{is_digit, parse_uint, parse_uint_chars};

verus! {

/// What kind of trigger a binding has.
#[derive(Debug, Clone, Copy, PartialEq, Eq, Structural)]
pub enum HelpTriggerKind {
    Key,
    Mouse,
    Event,
    Semantic,
}

/// One action of a binding as the help shows it: a trace (its message,
/// empty to end the traced run) or the action's own text.
#[derive(Debug, Clone, PartialEq, Eq)]
pub enum HelpItem {
    Trace(String),
    Shown(String),
}

/// A binding: its trigger's kind and text, and its actions.
#[derive(Debug, Clone, PartialEq, Eq)]
pub struct HelpBinding {
    pub kind: HelpTriggerKind,
    pub trigger: String,
    pub actions: Vec<HelpItem>,
}

/// The colors of the trigger and of the actions.
#[derive(Debug, Clone, Copy, PartialEq, Eq)]
pub struct HelpColors {
    pub key: CellColor,
    pub value: CellColor,
}

/// How the help is shown.
#[derive(Debug, Clone, PartialEq, Eq)]
pub struct HelpDisplayConfig {
    /// Leave out semantic triggers.
    pub hide_semantic: bool,
    /// Show event triggers.
    pub show_events: bool,
    /// Put before an event trigger's text.
    pub event_trigger_prefix: String,
    /// Quote trace messages.
    pub quote_traces: bool,
    /// The widest an action's text is shown.
    pub max_item_len: usize,
    /// Cut long actions in the middle rather than at the end.
    pub ellipsize_center: bool,
    /// Sort function keys after the other triggers.
    pub sort_fn_last: bool,
    /// Colors, or plain text.
    pub colors: Option<HelpColors>,
    /// Brackets around two or more actions.
    pub seq_brackets: Option<(char, char)>,
}

/// The help: plain text, or lines of styled spans.
#[derive(Debug, Clone, PartialEq, Eq)]
pub enum HelpText {
    Plain(String),
    Styled(StyledText),
}

/// What cba's `ellipsize` makes of `s`: cut to at most `max` columns,
/// marked with `…`, at the end or (`center`) in the middle.
pub uninterp spec fn ellipsized(s: Seq<char>, max: usize, center: bool) -> Seq<char>;

/// `s.ellipsize(max, align)` (cba), aligned to the left or the center.
#[verifier::external_body]
fn ellipsize(s: &str, max: usize, center: bool) -> (r: String)
    requires
        max <= usize::MAX - 2,
    ensures
        r@ == ellipsized(s@, max, center),
{
    let align = if center {
        std::fmt::Alignment::Center
    } else {
        std::fmt::Alignment::Left
    };
    cba::bring::StrExt::ellipsize(s, max, align)
}

/// How a trace message is shown: `@@name` as `@name`, another message
/// quoted when asked.
pub open spec fn trace_text(s: Seq<char>, quote: bool) -> Seq<char> {
    if starts_with(s, seq!['@', '@']) {
        seq!['@'] + s.skip(2)
    } else if quote {
        seq!['"'] + s + seq!['"']
    } else {
        s
    }
}

/// The items shown so far, whether a traced run is open, and its message.
pub type TraceState = (Seq<Seq<char>>, bool, Seq<char>);

/// One action read: a trace closes the open run (showing its message) and
/// opens another unless empty; an action is shown outside a run.
pub open spec fn trace_step(st: TraceState, item: HelpItem, cfg: HelpDisplayConfig) -> TraceState {
    match item {
        HelpItem::Trace(s) => {
            let shown = if st.1 {
                st.0.push(st.2)
            } else {
                st.0
            };
            if s@.len() == 0 {
                (shown, false, Seq::empty())
            } else {
                (shown, true, trace_text(s@, cfg.quote_traces))
            }
        },
        HelpItem::Shown(a) => if st.1 {
            st
        } else {
            (st.0.push(ellipsized(a@, cfg.max_item_len, cfg.ellipsize_center)), st.1, st.2)
        },
    }
}

/// The state after the actions in turn.
pub open spec fn trace_run(items: Seq<HelpItem>, cfg: HelpDisplayConfig) -> TraceState
    decreases items.len(),
{
    if items.len() == 0 {
        (Seq::empty(), false, Seq::empty())
    } else {
        trace_step(trace_run(items.drop_last(), cfg), items.last(), cfg)
    }
}

/// The texts shown for a binding's actions: a run left open shows its
/// message at the end.
pub open spec fn visible_items(items: Seq<HelpItem>, cfg: HelpDisplayConfig) -> Seq<Seq<char>> {
    let st = trace_run(items, cfg);
    if st.1 && st.2.len() > 0 {
        st.0.push(st.2)
    } else {
        st.0
    }
}

/// Without traces, every action is shown, cut to the widest allowed, in
/// order.
pub proof fn law_untraced_actions_are_all_shown(items: Seq<HelpItem>, cfg: HelpDisplayConfig)
    requires
        forall|k: int| 0 <= k < items.len() ==> #[trigger] items[k] is Shown,
    ensures
        visible_items(items, cfg) == items.map_values(
            |it: HelpItem| ellipsized(it->Shown_0@, cfg.max_item_len, cfg.ellipsize_center),
        ),
{
    lemma_untraced_run(items, cfg);
}

/// Without traces, no run is ever open and each action is shown.
proof fn lemma_untraced_run(items: Seq<HelpItem>, cfg: HelpDisplayConfig)
    requires
        forall|k: int| 0 <= k < items.len() ==> #[trigger] items[k] is Shown,
    ensures
        !trace_run(items, cfg).1,
        trace_run(items, cfg).0 == items.map_values(
            |it: HelpItem| ellipsized(it->Shown_0@, cfg.max_item_len, cfg.ellipsize_center),
        ),
    decreases items.len(),
{
    if items.len() > 0 {
        let init = items.drop_last();
        assert forall|k: int| 0 <= k < init.len() implies #[trigger] init[k] is Shown by {
            assert(init[k] == items[k]);
        }
        lemma_untraced_run(init, cfg);
        assert(items.last() is Shown) by {
            assert(items[items.len() - 1] is Shown);
        }
        assert(items.map_values(|it: HelpItem| ellipsized(it->Shown_0@, cfg.max_item_len, cfg.ellipsize_center))
            =~= init.map_values(
            |it: HelpItem| ellipsized(it->Shown_0@, cfg.max_item_len, cfg.ellipsize_center),
        ).push(ellipsized(items.last()->Shown_0@, cfg.max_item_len, cfg.ellipsize_center)));
    } else {
        assert(items.map_values(|it: HelpItem| ellipsized(it->Shown_0@, cfg.max_item_len, cfg.ellipsize_center))
            =~= Seq::<Seq<char>>::empty());
    }
}

/// The texts shown for `items` (see [`visible_items`]).
pub fn help_items(items: &Vec<HelpItem>, cfg: &HelpDisplayConfig) -> (r: Vec<String>)
    requires
        cfg.max_item_len <= usize::MAX - 2,
    ensures
        strings_view(r@) == visible_items(items@, *cfg),
{
    let mut shown: Vec<String> = Vec::new();
    let mut skipping = false;
    let mut last = String::new();
    let mut k: usize = 0;
    while k < items.len()
        invariant
            k <= items@.len(),
            cfg.max_item_len <= usize::MAX - 2,
            (strings_view(shown@), skipping, last@) == trace_run(items@.take(k as int), *cfg),
        decreases items@.len() - k,
    {
        proof {
            assert(items@.take(k + 1).drop_last() =~= items@.take(k as int));
        }
        match &items[k] {
            HelpItem::Trace(s) => {
                let ghost before = strings_view(shown@);
                if skipping {
                    let prev = last;
                    last = String::new();
                    let ghost pv = prev@;
                    shown.push(prev);
                    proof {
                        assert(strings_view(shown@) =~= before.push(pv));
                    }
                }
                if s.unicode_len() == 0 {
                    last = String::new();
                    skipping = false;
                } else {
                    last = trace_string(s.as_str(), cfg.quote_traces);
                    skipping = true;
                }
            },
            HelpItem::Shown(a) => {
                if !skipping {
                    let ghost before = strings_view(shown@);
                    let e = ellipsize(a.as_str(), cfg.max_item_len, cfg.ellipsize_center);
                    let ghost ev = e@;
                    shown.push(e);
                    proof {
                        assert(strings_view(shown@) =~= before.push(ev));
                    }
                }
            },
        }
        k = k + 1;
    }
    proof {
        assert(items@.take(k as int) =~= items@);
    }
    if skipping && last.unicode_len() > 0 {
        let ghost before = strings_view(shown@);
        let ghost lv = last@;
        shown.push(last);
        proof {
            assert(strings_view(shown@) =~= before.push(lv));
        }
    }
    shown
}

/// How a trace message is shown (see [`trace_text`]).
fn trace_string(s: &str, quote: bool) -> (r: String)
    ensures
        r@ == trace_text(s@, quote),
{
    let alias = str_starts_with(s, "@@");
    proof {
        reveal_strlit("@@");
        assert("@@"@ =~= seq!['@', '@']);
    }
    let cs = chars_of(s);
    if alias {
        let mut r = String::new();
        string_push(&mut r, '@');
        let rest = string_of(&cs, 2, cs.len());
        push_str(&mut r, rest.as_str());
        proof {
            assert(r@ =~= seq!['@'] + s@.skip(2));
        }
        r
    } else if quote {
        let mut r = String::new();
        string_push(&mut r, '"');
        push_str(&mut r, s);
        string_push(&mut r, '"');
        proof {
            assert(r@ =~= seq!['"'] + s@ + seq!['"']);
        }
        r
    } else {
        let r = string_of(&cs, 0, cs.len());
        proof {
            assert(r@ =~= s@);
        }
        r
    }
}


/// A line of the help before it is laid out: the trigger's text and the
/// texts shown for its actions.
pub type HelpEntryView = (Seq<char>, Seq<Seq<char>>);

/// Whether a binding is listed: semantic triggers unless hidden, event
/// triggers when shown.
pub open spec fn listed(b: HelpBinding, cfg: HelpDisplayConfig) -> bool {
    &&& !(cfg.hide_semantic && b.kind == HelpTriggerKind::Semantic)
    &&& !(!cfg.show_events && b.kind == HelpTriggerKind::Event)
}

/// The trigger's text in the help: an event's after the event prefix.
pub open spec fn trigger_text(b: HelpBinding, cfg: HelpDisplayConfig) -> Seq<char> {
    if b.kind == HelpTriggerKind::Event {
        cfg.event_trigger_prefix@ + b.trigger@
    } else {
        b.trigger@
    }
}

/// The help's lines, in the bindings' order, before sorting.
pub open spec fn help_entries(bs: Seq<HelpBinding>, cfg: HelpDisplayConfig) -> Seq<HelpEntryView>
    decreases bs.len(),
{
    if bs.len() == 0 {
        Seq::empty()
    } else {
        let rest = help_entries(bs.drop_last(), cfg);
        if listed(bs.last(), cfg) {
            rest.push((trigger_text(bs.last(), cfg), visible_items(bs.last().actions@, cfg)))
        } else {
            rest
        }
    }
}

/// The number of a function key's text (`F` and digits), if it is one.
pub open spec fn fn_key(t: Seq<char>) -> Option<nat> {
    if t.len() > 1 && t[0] == 'F' && (forall|k: int| 1 <= k < t.len() ==> is_digit(#[trigger] t[k])) {
        parse_uint(t.skip(1), u32::MAX as nat)
    } else {
        None
    }
}

/// -1, 0 or 1 as `a` is before, with or after `b` character by character,
/// a prefix first.
pub open spec fn chars_order(a: Seq<char>, b: Seq<char>) -> int
    decreases a.len(),
{
    if a.len() == 0 {
        if b.len() == 0 {
            0
        } else {
            -1
        }
    } else if b.len() == 0 {
        1
    } else if a[0] < b[0] {
        -1
    } else if a[0] > b[0] {
        1
    } else {
        chars_order(a.drop_first(), b.drop_first())
    }
}

/// -1, 0 or 1 as the texts `a` are before, with or after `b` text by text,
/// a prefix first.
pub open spec fn texts_order(a: Seq<Seq<char>>, b: Seq<Seq<char>>) -> int
    decreases a.len(),
{
    if a.len() == 0 {
        if b.len() == 0 {
            0
        } else {
            -1
        }
    } else if b.len() == 0 {
        1
    } else if chars_order(a[0], b[0]) != 0 {
        chars_order(a[0], b[0])
    } else {
        texts_order(a.drop_first(), b.drop_first())
    }
}

/// Whether every text is quoted, as trace messages are.
pub open spec fn all_quoted(items: Seq<Seq<char>>) -> bool {
    forall|k: int|
        0 <= k < items.len() ==> (#[trigger] items[k]).len() > 0 && items[k][0] == '"' && items[k].last() == '"'
}

/// -1, 0 or 1 as the line `a` goes before, with or after `b`: function keys
/// last (by number) when asked, lines of quoted traces first when traces
/// are quoted, else by the texts shown.
pub open spec fn entry_order(a: HelpEntryView, b: HelpEntryView, cfg: HelpDisplayConfig) -> int {
    let fa = fn_key(a.0);
    let fb = fn_key(b.0);
    if cfg.sort_fn_last && (fa is Some) != (fb is Some) {
        if fa is Some {
            1
        } else {
            -1
        }
    } else if cfg.sort_fn_last && fa is Some {
        if fa.unwrap() < fb.unwrap() {
            -1
        } else if fa.unwrap() > fb.unwrap() {
            1
        } else {
            0
        }
    } else if cfg.quote_traces && all_quoted(a.1) != all_quoted(b.1) {
        if all_quoted(a.1) {
            -1
        } else {
            1
        }
    } else {
        texts_order(a.1, b.1)
    }
}

/// Whether no line is after the line that follows it.
pub open spec fn in_order(es: Seq<HelpEntryView>, cfg: HelpDisplayConfig) -> bool {
    forall|i: int| 0 <= i < es.len() - 1 ==> entry_order(#[trigger] es[i], es[i + 1], cfg) <= 0
}

/// Comparing the other way round gives the opposite.
pub proof fn lemma_chars_order_flip(a: Seq<char>, b: Seq<char>)
    ensures
        chars_order(a, b) == -chars_order(b, a),
    decreases a.len(),
{
    if a.len() > 0 && b.len() > 0 && a[0] == b[0] {
        lemma_chars_order_flip(a.drop_first(), b.drop_first());
    }
}

/// Comparing the other way round gives the opposite.
pub proof fn lemma_texts_order_flip(a: Seq<Seq<char>>, b: Seq<Seq<char>>)
    ensures
        texts_order(a, b) == -texts_order(b, a),
    decreases a.len(),
{
    if a.len() > 0 && b.len() > 0 {
        lemma_chars_order_flip(a[0], b[0]);
        if chars_order(a[0], b[0]) == 0 {
            lemma_texts_order_flip(a.drop_first(), b.drop_first());
        }
    }
}

/// Comparing two lines the other way round gives the opposite.
pub proof fn lemma_entry_order_flip(a: HelpEntryView, b: HelpEntryView, cfg: HelpDisplayConfig)
    ensures
        entry_order(a, b, cfg) == -entry_order(b, a, cfg),
{
    lemma_texts_order_flip(a.1, b.1);
}

/// `chars_order` of `a` and `b` (see [`chars_order`]).
fn str_order(a: &str, b: &str) -> (r: i8)
    ensures
        r == chars_order(a@, b@),
{
    let ac = chars_of(a);
    let bc = chars_of(b);
    let mut i: usize = 0;
    proof {
        assert(a@.skip(0) =~= a@);
        assert(b@.skip(0) =~= b@);
    }
    while i < ac.len() && i < bc.len()
        invariant
            i <= ac@.len(),
            i <= bc@.len(),
            ac@ == a@,
            bc@ == b@,
            chars_order(a@, b@) == chars_order(a@.skip(i as int), b@.skip(i as int)),
        decreases ac@.len() - i,
    {
        proof {
            assert(a@.skip(i as int).drop_first() =~= a@.skip(i + 1));
            assert(b@.skip(i as int).drop_first() =~= b@.skip(i + 1));
        }
        if ac[i] < bc[i] {
            return -1;
        } else if ac[i] > bc[i] {
            return 1;
        }
        i = i + 1;
    }
    if i < ac.len() {
        1
    } else if i < bc.len() {
        -1
    } else {
        0
    }
}

/// `texts_order` of `a` and `b` (see [`texts_order`]).
fn texts_order_of(a: &Vec<String>, b: &Vec<String>) -> (r: i8)
    ensures
        r == texts_order(strings_view(a@), strings_view(b@)),
{
    let ghost av = strings_view(a@);
    let ghost bv = strings_view(b@);
    let mut i: usize = 0;
    proof {
        assert(av.skip(0) =~= av);
        assert(bv.skip(0) =~= bv);
    }
    while i < a.len() && i < b.len()
        invariant
            i <= a@.len(),
            i <= b@.len(),
            av == strings_view(a@),
            bv == strings_view(b@),
            texts_order(av, bv) == texts_order(av.skip(i as int), bv.skip(i as int)),
        decreases a@.len() - i,
    {
        proof {
            assert(av.skip(i as int).drop_first() =~= av.skip(i + 1));
            assert(bv.skip(i as int).drop_first() =~= bv.skip(i + 1));
            assert(av.skip(i as int)[0] == a@[i as int]@);
            assert(bv.skip(i as int)[0] == b@[i as int]@);
        }
        let c = str_order(a[i].as_str(), b[i].as_str());
        if c != 0 {
            return c;
        }
        i = i + 1;
    }
    if i < a.len() {
        1
    } else if i < b.len() {
        -1
    } else {
        0
    }
}


/// A line of the help as the library holds it.
pub type HelpEntry = (String, Vec<String>);

/// The view of a line: its trigger's text and the texts shown.
pub open spec fn entry_view(e: HelpEntry) -> HelpEntryView {
    (e.0@, strings_view(e.1@))
}

/// The views of the lines.
pub open spec fn entries_view(es: Seq<HelpEntry>) -> Seq<HelpEntryView> {
    es.map_values(|e: HelpEntry| entry_view(e))
}

/// The number of a function key's text (see [`fn_key`]).
fn fn_key_of(t: &str) -> (r: Option<u32>)
    ensures
        match fn_key(t@) {
            Some(v) => r == Some(v as u32),
            None => r is None,
        },
{
    let cs = chars_of(t);
    let n = cs.len();
    if n > 1 && cs[0] == 'F' {
        let mut k: usize = 1;
        while k < n
            invariant
                1 <= k <= n,
                n == cs@.len(),
                cs@ == t@,
                forall|j: int| 1 <= j < k ==> is_digit(#[trigger] t@[j]),
            decreases n - k,
        {
            if !('0' <= cs[k] && cs[k] <= '9') {
                proof {
                    assert(!is_digit(t@[k as int]));
                }
                return None;
            }
            k = k + 1;
        }
        proof {
            assert(cs@.subrange(1, n as int) =~= t@.skip(1));
        }
        parse_uint_chars(&cs, 1, n, 4294967295)
    } else {
        None
    }
}

/// Whether every text is quoted (see [`all_quoted`]).
fn all_quoted_of(items: &Vec<String>) -> (r: bool)
    ensures
        r == all_quoted(strings_view(items@)),
{
    let ghost iv = strings_view(items@);
    let mut k: usize = 0;
    while k < items.len()
        invariant
            k <= items@.len(),
            iv == strings_view(items@),
            forall|j: int| 0 <= j < k ==> (#[trigger] iv[j]).len() > 0 && iv[j][0] == '"' && iv[j].last() == '"',
        decreases items@.len() - k,
    {
        let cs = chars_of(items[k].as_str());
        proof {
            assert(iv[k as int] == cs@);
        }
        if cs.len() == 0 || cs[0] != '"' || cs[cs.len() - 1] != '"' {
            return false;
        }
        k = k + 1;
    }
    true
}

/// How the line `a` stands to `b` (see [`entry_order`]).
fn entry_order_of(a: &HelpEntry, b: &HelpEntry, cfg: &HelpDisplayConfig) -> (r: i8)
    ensures
        r == entry_order(entry_view(*a), entry_view(*b), *cfg),
{
    let fa = fn_key_of(a.0.as_str());
    let fb = fn_key_of(b.0.as_str());
    if cfg.sort_fn_last && fa.is_some() != fb.is_some() {
        if fa.is_some() {
            1
        } else {
            -1
        }
    } else if cfg.sort_fn_last && fa.is_some() {
        let x = fa.unwrap();
        let y = fb.unwrap();
        if x < y {
            -1
        } else if x > y {
            1
        } else {
            0
        }
    } else {
        let qa = all_quoted_of(&a.1);
        let qb = all_quoted_of(&b.1);
        if cfg.quote_traces && qa != qb {
            if qa {
                -1
            } else {
                1
            }
        } else {
            texts_order_of(&a.1, &b.1)
        }
    }
}

/// The lines put in order (see [`entry_order`]), the same lines as given.
fn sort_entries(es: Vec<HelpEntry>, cfg: &HelpDisplayConfig) -> (r: Vec<HelpEntry>)
    ensures
        entries_view(r@).to_multiset() == entries_view(es@).to_multiset(),
        in_order(entries_view(r@), *cfg),
{
    broadcast use {
        vstd::multiset::group_multiset_axioms,
        vstd::seq_lib::group_to_multiset_ensures,
        vstd::multiset::lemma_multiset_empty_len,
    };

    let ghost orig = entries_view(es@).to_multiset();
    let mut es = es;
    let mut r: Vec<HelpEntry> = Vec::new();
    proof {
        assert(entries_view(r@) =~= Seq::<HelpEntryView>::empty());
        assert(entries_view(r@).to_multiset() =~= vstd::multiset::Multiset::empty());
        assert(entries_view(r@).to_multiset().add(entries_view(es@).to_multiset()) =~= orig);
    }
    while es.len() > 0
        invariant
            entries_view(r@).to_multiset().add(entries_view(es@).to_multiset()) == orig,
            in_order(entries_view(r@), *cfg),
        decreases es@.len(),
    {
        let ghost before_es = es@;
        match es.pop() {
            Some(x) => {
                let ghost xv = entry_view(x);
                let ghost rv = entries_view(r@);
                proof {
                    assert(entries_view(before_es) =~= entries_view(es@).push(xv));
                    vstd::seq_lib::to_multiset_build(entries_view(es@), xv);
                }
                let mut k: usize = 0;
                let mut go = true;
                while go && k < r.len()
                    invariant
                        k <= r@.len(),
                        rv == entries_view(r@),
                        xv == entry_view(x),
                        forall|j: int| 0 <= j < k ==> entry_order(#[trigger] rv[j], xv, *cfg) < 0,
                        !go ==> k < r@.len() && entry_order(rv[k as int], xv, *cfg) >= 0,
                    decreases r@.len() - k, if go {
                        1int
                    } else {
                        0int
                    },
                {
                    if entry_order_of(&r[k], &x, cfg) < 0 {
                        k = k + 1;
                    } else {
                        go = false;
                    }
                }
                r.insert(k, x);
                proof {
                    let nv = entries_view(r@);
                    assert(nv =~= rv.insert(k as int, xv));
                    vstd::seq_lib::to_multiset_insert(rv, k as int, xv);
                    assert forall|i: int| 0 <= i < nv.len() - 1 implies entry_order(#[trigger] nv[i], nv[i + 1], *cfg)
                        <= 0 by {
                        if i + 1 < k {
                            assert(nv[i] == rv[i] && nv[i + 1] == rv[i + 1]);
                        } else if i + 1 == k {
                            assert(nv[i] == rv[i] && nv[i + 1] == xv);
                        } else if i == k {
                            assert(nv[i] == xv && nv[i + 1] == rv[i]);
                            lemma_entry_order_flip(rv[i], xv, *cfg);
                        } else {
                            assert(nv[i] == rv[i - 1] && nv[i + 1] == rv[i]);
                        }
                    }
                }
            },
            None => {},
        }
    }
    proof {
        assert(entries_view(es@) =~= Seq::<HelpEntryView>::empty());
        assert(entries_view(es@).to_multiset() =~= vstd::multiset::Multiset::empty());
    }
    r
}


/// The help's lines in the bindings' order (see [`help_entries`]).
fn collect_entries(bs: &Vec<HelpBinding>, cfg: &HelpDisplayConfig) -> (r: Vec<HelpEntry>)
    requires
        cfg.max_item_len <= usize::MAX - 2,
    ensures
        entries_view(r@) == help_entries(bs@, *cfg),
{
    let mut r: Vec<HelpEntry> = Vec::new();
    let mut k: usize = 0;
    proof {
        assert(bs@.take(0) =~= Seq::<HelpBinding>::empty());
        assert(entries_view(r@) =~= Seq::<HelpEntryView>::empty());
    }
    while k < bs.len()
        invariant
            k <= bs@.len(),
            cfg.max_item_len <= usize::MAX - 2,
            entries_view(r@) == help_entries(bs@.take(k as int), *cfg),
        decreases bs@.len() - k,
    {
        proof {
            assert(bs@.take(k + 1).drop_last() =~= bs@.take(k as int));
        }
        let b = &bs[k];
        let shown = !(cfg.hide_semantic && b.kind == HelpTriggerKind::Semantic) && !(!cfg.show_events && b.kind
            == HelpTriggerKind::Event);
        if shown {
            let mut t = String::new();
            if b.kind == HelpTriggerKind::Event {
                push_str(&mut t, cfg.event_trigger_prefix.as_str());
            }
            push_str(&mut t, b.trigger.as_str());
            let items = help_items(&b.actions, cfg);
            let ghost before = entries_view(r@);
            let e = (t, items);
            let ghost ev = entry_view(e);
            r.push(e);
            proof {
                assert(entries_view(r@) =~= before.push(ev));
                assert(ev == (trigger_text(*b, *cfg), visible_items(b.actions@, *cfg)));
            }
        }
        k = k + 1;
    }
    proof {
        assert(bs@.take(k as int) =~= bs@);
    }
    r
}

/// The texts joined by `, `.
pub open spec fn joined(items: Seq<Seq<char>>) -> Seq<char>
    decreases items.len(),
{
    if items.len() == 0 {
        Seq::empty()
    } else if items.len() == 1 {
        items[0]
    } else {
        joined(items.drop_last()) + seq![',', ' '] + items.last()
    }
}

/// What a plain line shows after ` = `: nothing, the one text, or the
/// texts joined (in the brackets, when given).
pub open spec fn plain_value(items: Seq<Seq<char>>, cfg: HelpDisplayConfig) -> Seq<char> {
    if items.len() == 0 {
        Seq::empty()
    } else if items.len() == 1 {
        items[0]
    } else {
        match cfg.seq_brackets {
            Some((open, close)) => seq![open] + joined(items) + seq![close],
            None => joined(items),
        }
    }
}

/// The plain help: a `trigger = value` line for each line in turn.
pub open spec fn plain_help(es: Seq<HelpEntryView>, cfg: HelpDisplayConfig) -> Seq<char>
    decreases es.len(),
{
    if es.len() == 0 {
        Seq::empty()
    } else {
        plain_help(es.drop_last(), cfg) + es.last().0 + seq![' ', '=', ' '] + plain_value(es.last().1, cfg)
            + seq!['\n']
    }
}

/// The texts in `style`, `, ` between them.
pub open spec fn value_spans(items: Seq<Seq<char>>, style: CellStyle) -> Seq<(Seq<char>, CellStyle)>
    decreases items.len(),
{
    if items.len() == 0 {
        Seq::empty()
    } else if items.len() == 1 {
        seq![(items[0], style)]
    } else {
        value_spans(items.drop_last(), style) + seq![(seq![',', ' '], plain_style()), (items.last(), style)]
    }
}

/// The style with only the foreground color `c`.
pub open spec fn fg_style(c: CellColor) -> CellStyle {
    CellStyle { fg: Some(c), ..plain_style() }
}

/// A styled line: the trigger in the key color, ` = `, the texts in the
/// value color (two or more in the brackets, when given), and a newline.
pub open spec fn styled_entry(e: HelpEntryView, cfg: HelpDisplayConfig, colors: HelpColors) -> Seq<(Seq<char>, CellStyle)> {
    let head = seq![(e.0, fg_style(colors.key)), (seq![' ', '=', ' '], plain_style())];
    let body = if e.1.len() > 1 {
        match cfg.seq_brackets {
            Some((open, close)) => seq![(seq![open], plain_style())] + value_spans(e.1, fg_style(colors.value))
                + seq![(seq![close], plain_style())],
            None => value_spans(e.1, fg_style(colors.value)),
        }
    } else if e.1.len() == 1 {
        seq![(e.1[0], fg_style(colors.value))]
    } else {
        Seq::empty()
    };
    head + body + seq![(seq!['\n'], plain_style())]
}

/// The styled help: one line for each line in turn.
pub open spec fn styled_help(es: Seq<HelpEntryView>, cfg: HelpDisplayConfig, colors: HelpColors) -> Seq<
    Seq<(Seq<char>, CellStyle)>,
> {
    es.map_values(|e: HelpEntryView| styled_entry(e, cfg, colors))
}

/// The help laid out from the lines `es`: plain without colors, styled
/// with them.
pub open spec fn laid_out(r: HelpText, es: Seq<HelpEntryView>, cfg: HelpDisplayConfig) -> bool {
    match cfg.colors {
        None => r matches HelpText::Plain(s) && s@ == plain_help(es, cfg),
        Some(c) => r matches HelpText::Styled(t) && t@ == styled_help(es, cfg, c),
    }
}

/// The texts joined by `, ` (see [`joined`]).
fn join_items(items: &Vec<String>) -> (r: String)
    ensures
        r@ == joined(strings_view(items@)),
{
    let ghost iv = strings_view(items@);
    let mut r = String::new();
    let mut k: usize = 0;
    proof {
        assert(iv.take(0) =~= Seq::<Seq<char>>::empty());
    }
    while k < items.len()
        invariant
            k <= items@.len(),
            iv == strings_view(items@),
            r@ == joined(iv.take(k as int)),
        decreases items@.len() - k,
    {
        proof {
            assert(iv.take(k + 1).drop_last() =~= iv.take(k as int));
            assert(iv.take(k + 1).last() == items@[k as int]@);
        }
        if k > 0 {
            push_str(&mut r, ", ");
            proof {
                reveal_strlit(", ");
            }
        }
        push_str(&mut r, items[k].as_str());
        proof {
            if k == 0 {
                assert(r@ =~= iv.take(1)[0]);
            } else {
                assert(r@ =~= joined(iv.take(k as int)) + seq![',', ' '] + iv.take(k + 1).last());
            }
        }
        k = k + 1;
    }
    proof {
        assert(iv.take(k as int) =~= iv);
    }
    r
}

/// The plain help of the lines (see [`plain_help`]).
fn plain_help_of(es: &Vec<HelpEntry>, cfg: &HelpDisplayConfig) -> (r: String)
    ensures
        r@ == plain_help(entries_view(es@), *cfg),
{
    let ghost ev = entries_view(es@);
    let mut r = String::new();
    let mut k: usize = 0;
    proof {
        assert(ev.take(0) =~= Seq::<HelpEntryView>::empty());
    }
    while k < es.len()
        invariant
            k <= es@.len(),
            ev == entries_view(es@),
            r@ == plain_help(ev.take(k as int), *cfg),
        decreases es@.len() - k,
    {
        proof {
            assert(ev.take(k + 1).drop_last() =~= ev.take(k as int));
            assert(ev.take(k + 1).last() == entry_view(es@[k as int]));
        }
        let e = &es[k];
        let ghost items = strings_view(e.1@);
        let ghost r0 = r@;
        push_str(&mut r, e.0.as_str());
        push_str(&mut r, " = ");
        let n = e.1.len();
        if n == 1 {
            push_str(&mut r, e.1[0].as_str());
        } else if n > 1 {
            match cfg.seq_brackets {
                Some((open, close)) => {
                    string_push(&mut r, open);
                    let j = join_items(&e.1);
                    push_str(&mut r, j.as_str());
                    string_push(&mut r, close);
                },
                None => {
                    let j = join_items(&e.1);
                    push_str(&mut r, j.as_str());
                },
            }
        }
        string_push(&mut r, '\n');
        proof {
            reveal_strlit(" = ");
            assert(" = "@ =~= seq![' ', '=', ' ']);
            assert(r@ =~= r0 + e.0@ + seq![' ', '=', ' '] + plain_value(items, *cfg) + seq!['\n']);
        }
        k = k + 1;
    }
    proof {
        assert(ev.take(k as int) =~= ev);
    }
    r
}

/// A span of `content` in `style`.
fn span_of(content: &str, style: CellStyle) -> (r: StyledSpan)
    ensures
        span_view(r) == (content@, style),
{
    let cs = chars_of(content);
    let c = string_of(&cs, 0, cs.len());
    proof {
        assert(c@ =~= content@);
    }
    StyledSpan { content: c, style }
}

/// A span of the one character `c`, unstyled.
fn char_span(c: char) -> (r: StyledSpan)
    ensures
        span_view(r) == (seq![c], plain_style()),
{
    let mut s = String::new();
    string_push(&mut s, c);
    proof {
        assert(s@ =~= seq![c]);
    }
    StyledSpan { content: s, style: CellStyle::default() }
}

/// The styled line of `e` (see [`styled_entry`]).
fn styled_entry_of(e: &HelpEntry, cfg: &HelpDisplayConfig, colors: HelpColors) -> (r: Vec<StyledSpan>)
    ensures
        crate::render::line_view(r@) == styled_entry(entry_view(*e), *cfg, colors),
{
    let ghost items = strings_view(e.1@);
    let ks = CellStyle::fg(colors.key);
    let vs = CellStyle::fg(colors.value);
    let mut r: Vec<StyledSpan> = Vec::new();
    r.push(span_of(e.0.as_str(), ks));
    r.push(span_of(" = ", CellStyle::default()));
    proof {
        reveal_strlit(" = ");
        assert(" = "@ =~= seq![' ', '=', ' ']);
    }
    let ghost head = crate::render::line_view(r@);
    proof {
        assert(head =~= seq![(e.0@, fg_style(colors.key)), (seq![' ', '=', ' '], plain_style())]);
    }
    let n = e.1.len();
    if n > 1 {
        match cfg.seq_brackets {
            Some((open, _)) => {
                r.push(char_span(open));
                proof {
                    assert(crate::render::line_view(r@) =~= head + seq![(seq![open], plain_style())]);
                }
            },
            None => {},
        }
        let ghost pre = crate::render::line_view(r@);
        let mut k: usize = 0;
        proof {
            assert(items.take(0) =~= Seq::<Seq<char>>::empty());
            assert(pre + value_spans(items.take(0), vs) =~= pre);
        }
        while k < n
            invariant
                k <= n,
                n == e.1@.len(),
                items == strings_view(e.1@),
                vs == fg_style(colors.value),
                crate::render::line_view(r@) == pre + value_spans(items.take(k as int), vs),
            decreases n - k,
        {
            proof {
                assert(items.take(k + 1).drop_last() =~= items.take(k as int));
                assert(items.take(k + 1).last() == e.1@[k as int]@);
            }
            let ghost before = crate::render::line_view(r@);
            if k > 0 {
                r.push(span_of(", ", CellStyle::default()));
                proof {
                    reveal_strlit(", ");
                    assert(", "@ =~= seq![',', ' ']);
                }
            }
            r.push(span_of(e.1[k].as_str(), vs));
            proof {
                if k == 0 {
                    assert(crate::render::line_view(r@) =~= pre + value_spans(items.take(1), vs));
                } else {
                    assert(crate::render::line_view(r@) =~= before + seq![
                        (seq![',', ' '], plain_style()),
                        (items.take(k + 1).last(), vs),
                    ]);
                    assert(crate::render::line_view(r@) =~= pre + value_spans(items.take(k + 1), vs));
                }
            }
            k = k + 1;
        }
        proof {
            assert(items.take(k as int) =~= items);
        }
        let ghost mid = crate::render::line_view(r@);
        match cfg.seq_brackets {
            Some((open, close)) => {
                r.push(char_span(close));
                proof {
                    assert(pre == head + seq![(seq![open], plain_style())]);
                    assert(crate::render::line_view(r@) =~= mid.push((seq![close], plain_style())));
                    assert(mid == pre + value_spans(items, vs));
                    assert(crate::render::line_view(r@) =~= head + (seq![(seq![open], plain_style())] + value_spans(
                        items,
                        vs,
                    ) + seq![(seq![close], plain_style())]));
                }
            },
            None => {
                proof {
                    assert(crate::render::line_view(r@) =~= head + value_spans(items, vs));
                }
            },
        }
    } else if n == 1 {
        r.push(span_of(e.1[0].as_str(), vs));
        proof {
            assert(crate::render::line_view(r@) =~= head + seq![(items[0], vs)]);
        }
    } else {
        proof {
            assert(crate::render::line_view(r@) =~= head + Seq::<(Seq<char>, CellStyle)>::empty());
        }
    }
    let ghost body_end = crate::render::line_view(r@);
    r.push(char_span('\n'));
    proof {
        assert(crate::render::line_view(r@) =~= body_end.push((seq!['\n'], plain_style())));
        assert(crate::render::line_view(r@) =~= styled_entry(entry_view(*e), *cfg, colors));
    }
    r
}

/// The styled help of the lines (see [`styled_help`]).
fn styled_help_of(es: &Vec<HelpEntry>, cfg: &HelpDisplayConfig, colors: HelpColors) -> (r: StyledText)
    ensures
        r@ == styled_help(entries_view(es@), *cfg, colors),
{
    let mut lines: Vec<Vec<StyledSpan>> = Vec::new();
    let mut k: usize = 0;
    while k < es.len()
        invariant
            k <= es@.len(),
            lines@.len() == k,
            forall|j: int|
                0 <= j < k ==> crate::render::line_view(#[trigger] lines@[j]@) == styled_entry(
                    entry_view(es@[j]),
                    *cfg,
                    colors,
                ),
        decreases es@.len() - k,
    {
        lines.push(styled_entry_of(&es[k], cfg, colors));
        k = k + 1;
    }
    let r = StyledText { lines };
    proof {
        assert(r@ =~= styled_help(entries_view(es@), *cfg, colors));
    }
    r
}

/// The help for the bindings: the listed bindings' lines (see
/// [`help_entries`]) put in order (see [`entry_order`]) and laid out (see
/// [`laid_out`]).
pub fn display_help(bindings: &Vec<HelpBinding>, cfg: &HelpDisplayConfig) -> (r: HelpText)
    requires
        cfg.max_item_len <= usize::MAX - 2,
    ensures
        exists|es: Seq<HelpEntryView>|
            es.to_multiset() == help_entries(bindings@, *cfg).to_multiset() && in_order(es, *cfg) && laid_out(
                r,
                es,
                *cfg,
            ),
{
    let entries = collect_entries(bindings, cfg);
    let sorted = sort_entries(entries, cfg);
    let r = match cfg.colors {
        None => HelpText::Plain(plain_help_of(&sorted, cfg)),
        Some(c) => HelpText::Styled(styled_help_of(&sorted, cfg, c)),
    };
    proof {
        assert(laid_out(r, entries_view(sorted@), *cfg));
    }
    r
}

/// A trace message is never empty when the trace is not.
proof fn lemma_trace_text_nonempty(s: Seq<char>, quote: bool)
    ensures
        s.len() > 0 ==> trace_text(s, quote).len() > 0,
{
}

/// A new trace ends the open traced run: the run's message is shown, then
/// the new one opens its own run; an action read inside a run is not
/// shown. So after a run and a new nonempty trace, both messages are shown
/// in order. An empty trace also ends the open run, showing its message,
/// and opens none: the actions after it are shown again, each cut to the
/// widest allowed.
pub proof fn law_next_trace_shows_open_message(
    items: Seq<HelpItem>,
    s: String,
    a: String,
    e: String,
    cfg: HelpDisplayConfig,
)
    requires
        s@.len() > 0,
    ensures
        e@.len() == 0 ==> trace_run(items.push(HelpItem::Trace(e)), cfg) == (if trace_run(items, cfg).1 {
            trace_run(items, cfg).0.push(trace_run(items, cfg).2)
        } else {
            trace_run(items, cfg).0
        }, false, Seq::<char>::empty()),
        !trace_run(items, cfg).1 ==> trace_run(items.push(HelpItem::Shown(a)), cfg) == (trace_run(
            items,
            cfg,
        ).0.push(ellipsized(a@, cfg.max_item_len, cfg.ellipsize_center)), false, trace_run(items, cfg).2),
        trace_run(items, cfg).1 ==> visible_items(items.push(HelpItem::Trace(s)), cfg) == trace_run(
            items,
            cfg,
        ).0.push(trace_run(items, cfg).2).push(trace_text(s@, cfg.quote_traces)),
        trace_run(items, cfg).1 ==> trace_run(items.push(HelpItem::Shown(a)), cfg) == trace_run(items, cfg),
        !trace_run(items, cfg).1 ==> visible_items(items.push(HelpItem::Trace(s)), cfg) == trace_run(
            items,
            cfg,
        ).0.push(trace_text(s@, cfg.quote_traces)),
{
    assert(items.push(HelpItem::Trace(s)).drop_last() =~= items);
    assert(items.push(HelpItem::Trace(e)).drop_last() =~= items);
    assert(items.push(HelpItem::Shown(a)).drop_last() =~= items);
    lemma_trace_text_nonempty(s@, cfg.quote_traces);
}

proof fn lemma_push_keeps(s: Seq<Seq<char>>, v: Seq<char>, x: Seq<char>)
    ensures
        s.contains(x) ==> s.push(v).contains(x),
        s.push(v).contains(v),
{
    assert(s.push(v)[s.len() as int] == v);
    if s.contains(x) {
        let j = choose|j: int| 0 <= j < s.len() && s[j] == x;
        assert(s.push(v)[j] == x);
    }
}

/// Every nonempty trace read so far is either shown already or is the
/// message of the run still open.
proof fn lemma_traces_kept(items: Seq<HelpItem>, cfg: HelpDisplayConfig)
    ensures
        trace_run(items, cfg).1 ==> trace_run(items, cfg).2.len() > 0,
        forall|i: int|
            0 <= i < items.len() && #[trigger] items[i] is Trace && items[i]->Trace_0@.len() > 0 ==> {
                let tt = trace_text(items[i]->Trace_0@, cfg.quote_traces);
                trace_run(items, cfg).0.contains(tt) || (trace_run(items, cfg).1 && trace_run(items, cfg).2 == tt)
            },
    decreases items.len(),
{
    if items.len() > 0 {
        let p = items.drop_last();
        lemma_traces_kept(p, cfg);
        let st = trace_run(p, cfg);
        let x = items.last();
        assert forall|i: int|
            0 <= i < items.len() && #[trigger] items[i] is Trace && items[i]->Trace_0@.len() > 0 implies {
                let tt = trace_text(items[i]->Trace_0@, cfg.quote_traces);
                trace_run(items, cfg).0.contains(tt) || (trace_run(items, cfg).1 && trace_run(items, cfg).2 == tt)
            } by {
            let tt = trace_text(items[i]->Trace_0@, cfg.quote_traces);
            if i < items.len() - 1 {
                assert(p[i] == items[i]);
                lemma_push_keeps(st.0, st.2, tt);
                match x {
                    HelpItem::Trace(s) => {},
                    HelpItem::Shown(a) => {
                        lemma_push_keeps(st.0, ellipsized(a@, cfg.max_item_len, cfg.ellipsize_center), tt);
                    },
                }
            }
        }
        match x {
            HelpItem::Trace(s) => {
                lemma_trace_text_nonempty(s@, cfg.quote_traces);
            },
            HelpItem::Shown(a) => {},
        }
    }
}

/// No trace is lost: the message of every nonempty trace among a binding's
/// actions is among the texts shown for it.
pub proof fn law_every_trace_message_is_shown(items: Seq<HelpItem>, cfg: HelpDisplayConfig, i: int)
    requires
        0 <= i < items.len(),
        items[i] is Trace,
        items[i]->Trace_0@.len() > 0,
    ensures
        visible_items(items, cfg).contains(trace_text(items[i]->Trace_0@, cfg.quote_traces)),
{
    lemma_traces_kept(items, cfg);
    let st = trace_run(items, cfg);
    let tt = trace_text(items[i]->Trace_0@, cfg.quote_traces);
    assert(items[i] is Trace);
    lemma_push_keeps(st.0, st.2, tt);
}

proof fn lemma_chars_order_self(a: Seq<char>)
    ensures
        chars_order(a, a) == 0,
    decreases a.len(),
{
    if a.len() > 0 {
        lemma_chars_order_self(a.drop_first());
    }
}

proof fn lemma_texts_order_self(a: Seq<Seq<char>>)
    ensures
        texts_order(a, a) == 0,
    decreases a.len(),
{
    if a.len() > 0 {
        lemma_chars_order_self(a[0]);
        lemma_texts_order_self(a.drop_first());
    }
}

/// How help lines are ordered: with `sort_fn_last`, a line for a function
/// key comes after one for any other trigger, and function keys go by
/// number; with quoted traces, a line of quoted traces comes before one
/// that is not (among lines the function key rule does not tell apart);
/// otherwise by the texts shown, a shorter list that starts the other
/// first. A line is level with itself, and swapping two lines flips the
/// order.
pub proof fn law_help_line_order(a: HelpEntryView, b: HelpEntryView, x: Seq<char>, cfg: HelpDisplayConfig)
    ensures
        cfg.sort_fn_last && fn_key(a.0) is None && fn_key(b.0) is Some ==> entry_order(a, b, cfg) < 0,
        (cfg.sort_fn_last && fn_key(a.0) is Some && fn_key(b.0) is Some && fn_key(a.0).unwrap() < fn_key(
            b.0,
        ).unwrap()) ==> entry_order(a, b, cfg) < 0,
        ((!cfg.sort_fn_last || (fn_key(a.0) is None && fn_key(b.0) is None)) && cfg.quote_traces && all_quoted(a.1)
            && !all_quoted(b.1)) ==> entry_order(a, b, cfg) < 0,
        ((!cfg.sort_fn_last || (fn_key(a.0) is None && fn_key(b.0) is None)) && (!cfg.quote_traces
            || all_quoted(a.1) == all_quoted(b.1))) ==> entry_order(a, b, cfg) == texts_order(a.1, b.1),
        texts_order(a.1, a.1.push(x)) < 0,
        entry_order(a, a, cfg) == 0,
        entry_order(a, b, cfg) == -entry_order(b, a, cfg),
        fn_key(a.0) is Some ==> a.0.len() > 1 && a.0[0] == 'F',
{
    lemma_texts_order_self(a.1);
    lemma_entry_order_flip(a, b, cfg);
    lemma_prefix_first(a.1, x);
}

proof fn lemma_prefix_first(a: Seq<Seq<char>>, x: Seq<char>)
    ensures
        texts_order(a, a.push(x)) < 0,
    decreases a.len(),
{
    if a.len() > 0 {
        lemma_chars_order_self(a[0]);
        assert(a.push(x)[0] == a[0]);
        assert(a.push(x).drop_first() =~= a.drop_first().push(x));
        lemma_prefix_first(a.drop_first(), x);
    }
}

/// Which bindings the help lists: key and mouse bindings always; semantic
/// ones unless hidden; event ones only when shown. A binding not listed
/// adds no line, and a listed one adds exactly one, last, for its trigger.
pub proof fn law_help_lists_bindings(bs: Seq<HelpBinding>, b: HelpBinding, cfg: HelpDisplayConfig)
    ensures
        (b.kind == HelpTriggerKind::Key || b.kind == HelpTriggerKind::Mouse) ==> listed(b, cfg),
        b.kind == HelpTriggerKind::Semantic ==> (listed(b, cfg) <==> !cfg.hide_semantic),
        b.kind == HelpTriggerKind::Event ==> (listed(b, cfg) <==> cfg.show_events),
        !listed(b, cfg) ==> help_entries(bs.push(b), cfg) == help_entries(bs, cfg),
        listed(b, cfg) ==> help_entries(bs.push(b), cfg).len() == help_entries(bs, cfg).len() + 1
            && help_entries(bs.push(b), cfg).last().0 == trigger_text(b, cfg),
        b.kind != HelpTriggerKind::Event ==> trigger_text(b, cfg) == b.trigger@,
        b.kind == HelpTriggerKind::Event ==> trigger_text(b, cfg) == cfg.event_trigger_prefix@ + b.trigger@,
{
    assert(bs.push(b).drop_last() =~= bs);
}

/// A plain help line reads `trigger = value` and ends the line: the value
/// is nothing, the one text, or the texts separated by `, ` (in the
/// brackets, when given); the lines go one after another.
pub proof fn law_plain_help_lines(es: Seq<HelpEntryView>, e: HelpEntryView, a: Seq<char>, b: Seq<char>, cfg: HelpDisplayConfig)
    ensures
        plain_help(es.push(e), cfg) == plain_help(es, cfg) + e.0 + seq![' ', '=', ' '] + plain_value(e.1, cfg)
            + seq!['\n'],
        plain_value(Seq::empty(), cfg) == Seq::<char>::empty(),
        plain_value(seq![a], cfg) == a,
        cfg.seq_brackets is None ==> plain_value(seq![a, b], cfg) == a + seq![',', ' '] + b,
        cfg.seq_brackets matches Some((o, c)) ==> plain_value(seq![a, b], cfg) == seq![o] + a + seq![',', ' '] + b
            + seq![c],
{
    assert(es.push(e).drop_last() =~= es);
    let two = seq![a, b];
    assert(two.drop_last() =~= seq![a]);
    assert(joined(seq![a]) == a);
    assert(joined(two) == a + seq![',', ' '] + b);
}

/// How a trace message is shown: an alias trace `@@name` as `@name`, never
/// quoted; another message in double quotes when traces are quoted, else
/// as it is.
pub proof fn law_trace_text(s: Seq<char>, quote: bool)
    ensures
        s.len() >= 2 && s[0] == '@' && s[1] == '@' ==> trace_text(s, quote) == seq!['@'] + s.skip(2),
        !(s.len() >= 2 && s[0] == '@' && s[1] == '@') && quote ==> trace_text(s, quote) == seq!['"'] + s + seq!['"'],
        !(s.len() >= 2 && s[0] == '@' && s[1] == '@') && !quote ==> trace_text(s, quote) == s,
{
    if s.len() >= 2 {
        assert(s.take(2)[0] == s[0] && s.take(2)[1] == s[1]);
        if s[0] == '@' && s[1] == '@' {
            assert(s.take(2) =~= seq!['@', '@']);
        }
    }
    assert(seq!['@', '@'][0] == '@' && seq!['@', '@'][1] == '@');
}

} // verus!
