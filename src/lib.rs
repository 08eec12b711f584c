use std::borrow::Cow;
use vstd::prelude::*;

verus! {

/// Number of spaces a tab at offset `pos` of the input expands to.
pub open spec fn tab_width(pos: int, tab_size: u16) -> int {
    if tab_size == 0 {
        0
    } else {
        tab_size - pos % (tab_size as int)
    }
}

/// A run of `n` spaces.
pub open spec fn spaces(n: int) -> Seq<char> {
    Seq::new(n as nat, |i: int| ' ')
}

/// What one character at offset `pos` of the input becomes: a tab turns into
/// its run of spaces, any other character stays as it is.
pub open spec fn expand_char(c: char, pos: int, tab_size: u16) -> Seq<char> {
    if c == '\t' {
        spaces(tab_width(pos, tab_size))
    } else {
        seq![c]
    }
}

/// The expansion of `s`: every character replaced by `expand_char` at its own
/// offset in `s`, the pieces joined in order.
pub open spec fn expanded(s: Seq<char>, tab_size: u16) -> Seq<char>
    decreases s.len(),
{
    if s.len() == 0 {
        seq![]
    } else {
        expanded(s.drop_last(), tab_size) + expand_char(s.last(), s.len() - 1, tab_size)
    }
}

/// Text without a tab is its own expansion, whatever the tab size.
pub proof fn lemma_expanded_without_tab(s: Seq<char>, tab_size: u16)
    requires
        !s.contains('\t'),
    ensures
        expanded(s, tab_size) == s,
    decreases s.len(),
{
    if s.len() > 0 {
        let init = s.drop_last();
        assert(!init.contains('\t')) by {
            if init.contains('\t') {
                let j = choose|j: int| 0 <= j < init.len() && init[j] == '\t';
                assert(s[j] == '\t');
            }
        }
        lemma_expanded_without_tab(init, tab_size);
        assert(s.last() != '\t') by {
            if s.last() == '\t' {
                assert(s[s.len() - 1] == '\t');
            }
        }
        assert(init.push(s.last()) == s);
    }
}

/// With a tab size of 0 the expansion is the input with its tabs deleted.
pub proof fn lemma_expanded_zero_drops_tabs(s: Seq<char>)
    ensures
        expanded(s, 0) == s.filter(|c: char| c != '\t'),
    decreases s.len(),
{
    reveal(Seq::filter);
    if s.len() > 0 {
        lemma_expanded_zero_drops_tabs(s.drop_last());
        let rest = expanded(s.drop_last(), 0);
        if s.last() == '\t' {
            assert(spaces(0) == Seq::<char>::empty());
            assert(rest + spaces(0) == rest);
        } else {
            assert(rest + seq![s.last()] == rest.push(s.last()));
        }
    }
}

/// Offsets of the tabs of `s`, in increasing order.
pub open spec fn tab_positions(s: Seq<char>) -> Seq<int>
    decreases s.len(),
{
    if s.len() == 0 {
        seq![]
    } else if s.last() == '\t' {
        tab_positions(s.drop_last()).push(s.len() - 1)
    } else {
        tab_positions(s.drop_last())
    }
}

/// Sum of the widths of tabs standing at the offsets `ps`.
pub open spec fn total_tab_width(ps: Seq<int>, tab_size: u16) -> int
    decreases ps.len(),
{
    if ps.len() == 0 {
        0
    } else {
        total_tab_width(ps.drop_last(), tab_size) + tab_width(ps.last(), tab_size)
    }
}

/// `tab_positions(s)` lists exactly the offsets of the tabs of `s`, each once,
/// in increasing order.
pub proof fn lemma_tab_positions(s: Seq<char>)
    ensures
        forall|i: int, j: int|
            0 <= i < j < tab_positions(s).len() ==> tab_positions(s)[i] < tab_positions(s)[j],
        forall|p: int| #[trigger]
            tab_positions(s).contains(p) <==> (0 <= p < s.len() && s[p] == '\t'),
    decreases s.len(),
{
    if s.len() > 0 {
        let init = s.drop_last();
        lemma_tab_positions(init);
        let ps = tab_positions(init);
        assert forall|i: int| 0 <= i < ps.len() implies ps[i] < s.len() - 1 by {
            assert(ps.contains(ps[i]));
        }
        assert forall|p: int| #[trigger]
            tab_positions(s).contains(p) <==> (0 <= p < s.len() && s[p] == '\t') by {
            if 0 <= p < s.len() - 1 {
                assert(s[p] == init[p]);
            }
            if ps.contains(p) {
                let k = choose|k: int| 0 <= k < ps.len() && #[trigger] ps[k] == p;
                assert(p < s.len() - 1);
            }
            if s.last() == '\t' {
                let qs = ps.push(s.len() - 1);
                assert(qs[ps.len() as int] == s.len() - 1);
                if qs.contains(p) {
                    let k = choose|k: int| 0 <= k < qs.len() && #[trigger] qs[k] == p;
                    if k < ps.len() {
                        assert(ps[k] == p);
                        assert(ps.contains(p));
                    }
                }
                if ps.contains(p) {
                    let k = choose|k: int| 0 <= k < ps.len() && #[trigger] ps[k] == p;
                    assert(qs[k] == p);
                }
            }
        }
    }
}

/// Each tab is replaced by its run of spaces, so the length of the expansion
/// is the input's length, less one for each tab, plus the widths of all tabs.
pub proof fn lemma_expanded_len(s: Seq<char>, tab_size: u16)
    ensures
        expanded(s, tab_size).len() == s.len() - tab_positions(s).len() + total_tab_width(
            tab_positions(s),
            tab_size,
        ),
    decreases s.len(),
{
    if s.len() > 0 {
        lemma_expanded_len(s.drop_last(), tab_size);
        if s.last() == '\t' {
            let ps = tab_positions(s.drop_last());
            assert(ps.push(s.len() - 1).drop_last() == ps);
            assert(tab_width(s.len() - 1, tab_size) >= 0) by {
                if tab_size != 0 {
                    assert((s.len() - 1) % (tab_size as int) < tab_size);
                }
            }
        }
    }
}

/// Each character takes at least one byte in UTF-8.
proof fn lemma_utf8_len_at_least_chars(cs: Seq<char>)
    ensures
        vstd::utf8::encode_utf8(cs).len() >= cs.len(),
    decreases cs.len(),
{
    if cs.len() > 0 {
        lemma_utf8_len_at_least_chars(cs.drop_first());
    }
}

/// Relies on String::push: appends one character.
#[verifier::external_body]
fn push_char(out: &mut String, c: char)
    ensures
        final(out)@ == old(out)@.push(c),
{
    out.push(c);
}

/// Spaces owed to a tab at character offset `pos`.
fn spaces_for_tab(pos: usize, tab_size: u16) -> (n: usize)
    ensures
        n == tab_width(pos as int, tab_size),
{
    if tab_size == 0 {
        0
    } else {
        let t = tab_size as usize;
        t - pos % t
    }
}

/// Builds the expansion of `s` in a new string, one character at a time.
fn expand_into(s: &str, tab_size: u16) -> (out: String)
    ensures
        out@ == expanded(s@, tab_size),
{
    broadcast use vstd::string::group_string_axioms;
    let byte_len = s.as_bytes().len();
    proof {
        lemma_utf8_len_at_least_chars(s@);
    }
    let mut out = String::new();
    let mut pos: usize = 0;
    for c in it: s.chars()
        invariant
            it.seq() == s@,
            pos == it.index(),
            s@.len() <= byte_len,
            out@ == expanded(s@.take(pos as int), tab_size),
    {
        proof {
            assert(s@.take(pos + 1).drop_last() == s@.take(pos as int));
        }
        if c == '\t' {
            let n = spaces_for_tab(pos, tab_size);
            let mut k: usize = 0;
            while k < n
                invariant
                    k <= n,
                    out@ == expanded(s@.take(pos as int), tab_size) + spaces(k as int),
                decreases n - k,
            {
                push_char(&mut out, ' ');
                k = k + 1;
                assert(spaces(k as int) == spaces((k - 1) as int).push(' '));
            }
        } else {
            push_char(&mut out, c);
        }
        pos = pos + 1;
    }
    proof {
        assert(s@.take(pos as int) == s@);
    }
    out
}

/// Whether `s` holds a tab character.
fn has_tab(s: &str) -> (found: bool)
    ensures
        found == s@.contains('\t'),
{
    broadcast use vstd::string::group_string_axioms;
    for c in it: s.chars()
        invariant
            it.seq() == s@,
            forall|j: int| 0 <= j < it.index() ==> s@[j] != '\t',
    {
        if c == '\t' {
            return true;
        }
    }
    false
}

/// Tab expansion for string-like values, viewed as sequences of characters.
///
/// Offsets are counted in characters. A tab at offset `p` becomes
/// `tab_size - p % tab_size` spaces, where `p` is its offset in the input
/// itself, not a column of the output; with `tab_size == 0` tabs are dropped.
pub trait StringExt: View<V = Seq<char>> {
    /// Expands tabs with the conventional tab stop of 8.
    fn expand_tabs_default(&self) -> (r: Cow<'_, str>)
        ensures
            r@ == expanded(self@, 8),
    {
        self.expand_tabs(8)
    }

    /// Replaces each tab at offset `p` with `tab_size - p % tab_size` spaces,
    /// or deletes it when `tab_size` is 0. Input without a tab comes back
    /// borrowed and unchanged.
    fn expand_tabs(&self, tab_size: u16) -> (r: Cow<'_, str>)
        ensures
            r@ == expanded(self@, tab_size),
            !self@.contains('\t') ==> r is Borrowed && r@ == self@,
    ;
}

impl StringExt for str {
    fn expand_tabs(&self, tab_size: u16) -> (r: Cow<'_, str>) {
        if has_tab(self) {
            Cow::Owned(expand_into(self, tab_size))
        } else {
            proof {
                lemma_expanded_without_tab(self@, tab_size);
            }
            Cow::Borrowed(self)
        }
    }
}

impl StringExt for String {
    fn expand_tabs(&self, tab_size: u16) -> (r: Cow<'_, str>) {
        self.as_str().expand_tabs(tab_size)
    }
}

} // verus!
