//! A divergence in words.
use crate::harness::diff::{Divergence, DivergenceView};
use crate::harness::ops::{entry_views, Entry, EntryView};
use vstd::prelude::*;
use vstd::string::StringExecFns;

verus! {

/// The digit `d`.
pub open spec fn digit(d: nat) -> char {
    seq!['0', '1', '2', '3', '4', '5', '6', '7', '8', '9'][d as int]
}

/// `n` in decimal.
pub open spec fn decimal(n: nat) -> Seq<char>
    decreases n,
{
    if n < 10 {
        seq![digit(n)]
    } else {
        decimal(n / 10).push(digit(n % 10))
    }
}

/// How `std` writes a string with `{:?}`: in quotes, and with escapes.
pub uninterp spec fn quoted(s: Seq<char>) -> Seq<char>;

/// An entry, with its fields by name.
pub open spec fn entry_text(e: EntryView) -> Seq<char> {
    "Entry { name: "@ + quoted(e.name) + ", size: "@ + decimal(e.size as nat) + ", is_dir: "@ + (
    if e.is_dir {
        "true"@
    } else {
        "false"@
    }) + " }"@
}

/// Entries, with commas between them.
pub open spec fn listed(es: Seq<EntryView>) -> Seq<char>
    decreases es.len(),
{
    if es.len() == 0 {
        Seq::empty()
    } else if es.len() == 1 {
        entry_text(es[0])
    } else {
        listed(es.drop_last()) + ", "@ + entry_text(es.last())
    }
}

/// A divergence in words: the path, and what was got and wanted there.
pub open spec fn divergence_text(d: DivergenceView) -> Seq<char> {
    match d {
        DivergenceView::Dir { path, got, want } => "dir "@ + path + ": got=["@ + listed(got)
            + "] want=["@ + listed(want) + "]"@,
        DivergenceView::File { path, got_len, want_len } => "file "@ + path + ": "@ + decimal(
            got_len,
        ) + " vs "@ + decimal(want_len) + " bytes / content differs"@,
    }
}

/// Writes a string as `{:?}` of `std` does. The result is named and depends on the string
/// alone; how it quotes and escapes is not said.
#[verifier::external_body]
fn quote(s: &String) -> (r: String)
    ensures
        r@ == quoted(s@),
{
    format!("{:?}", s)
}

/// The digit `d`, as text.
fn digit_str(d: u64) -> (r: &'static str)
    requires
        d < 10,
    ensures
        r@ =~= seq![digit(d as nat)],
{
    proof {
        reveal_strlit("0");
        reveal_strlit("1");
        reveal_strlit("2");
        reveal_strlit("3");
        reveal_strlit("4");
        reveal_strlit("5");
        reveal_strlit("6");
        reveal_strlit("7");
        reveal_strlit("8");
        reveal_strlit("9");
    }
    match d {
        0 => "0",
        1 => "1",
        2 => "2",
        3 => "3",
        4 => "4",
        5 => "5",
        6 => "6",
        7 => "7",
        8 => "8",
        _ => "9",
    }
}

/// Writes `n` in decimal behind `text`.
fn append_number(text: &mut String, n: u64)
    ensures
        final(text)@ == old(text)@ + decimal(n as nat),
    decreases n,
{
    if n >= 10 {
        append_number(text, n / 10);
    }
    text.append(digit_str(n % 10));
    assert(text@ =~= old(text)@ + decimal(n as nat));
}

/// Writes an entry behind `text`.
fn append_entry(text: &mut String, e: &Entry)
    ensures
        final(text)@ == old(text)@ + entry_text(e@),
{
    let ghost start = text@;
    text.append("Entry { name: ");
    text.append(quote(&e.name).as_str());
    text.append(", size: ");
    append_number(text, e.size);
    text.append(", is_dir: ");
    if e.is_dir {
        text.append("true");
    } else {
        text.append("false");
    }
    text.append(" }");
    assert(text@ =~= start + entry_text(e@));
}

/// Writes entries behind `text`.
fn append_entries(text: &mut String, es: &Vec<Entry>)
    ensures
        final(text)@ == old(text)@ + listed(entry_views(es@)),
{
    let ghost start = text@;
    let ghost all = entry_views(es@);
    let mut i: usize = 0;
    assert(start + listed(all.take(0)) =~= start);
    while i < es.len()
        invariant
            i <= es@.len(),
            all == entry_views(es@),
            text@ == start + listed(all.take(i as int)),
        decreases es@.len() - i,
    {
        if i > 0 {
            text.append(", ");
        }
        append_entry(text, &es[i]);
        proof {
            let now = all.take(i + 1);
            assert(now.drop_last() =~= all.take(i as int));
            assert(now.last() == es@[i as int]@);
            if i == 0 {
                assert(now[0] == es@[0]@);
            }
            assert(text@ =~= start + listed(now));
        }
        i = i + 1;
    }
    assert(all.take(i as int) =~= all);
}

impl Divergence {
    /// What differs, in words.
    pub fn describe(&self) -> (r: String)
        ensures
            r@ == divergence_text(self@),
    {
        let mut text = String::new();
        match self {
            Divergence::Dir { path, got, want } => {
                text.append("dir ");
                text.append(path.as_str());
                text.append(": got=[");
                append_entries(&mut text, got);
                text.append("] want=[");
                append_entries(&mut text, want);
                text.append("]");
            },
            Divergence::File { path, got_len, want_len } => {
                text.append("file ");
                text.append(path.as_str());
                text.append(": ");
                append_number(&mut text, *got_len as u64);
                text.append(" vs ");
                append_number(&mut text, *want_len as u64);
                text.append(" bytes / content differs");
            },
        }
        assert(text@ =~= divergence_text(self@));
        text
    }
}

/// The number that a row of digits stands for.
pub open spec fn number(s: Seq<char>) -> int
    decreases s.len(),
{
    if s.len() == 0 {
        0
    } else {
        10 * number(s.drop_last()) + (s.last() as u32 - 48)
    }
}

/// The character of a digit.
proof fn lemma_digit(d: nat)
    requires
        d < 10,
    ensures
        digit(d) as u32 == 48 + d,
        '0' <= digit(d) <= '9',
        d > 0 ==> digit(d) != '0',
{
    if d < 5 {
        assert(d == 0 || d == 1 || d == 2 || d == 3 || d == 4);
    } else {
        assert(d == 5 || d == 6 || d == 7 || d == 8 || d == 9);
    }
}

/// A number is written in digits that stand for it, the first of which is 0 only if it is the
/// only one.
pub proof fn decimals_stand_for_their_number(n: nat)
    ensures
        number(decimal(n)) == n,
        decimal(n).len() > 0,
        n >= 10 <==> decimal(n).len() > 1,
        decimal(n).len() > 1 ==> decimal(n)[0] != '0',
        forall|i: int|
            0 <= i < decimal(n).len() ==> '0' <= #[trigger] decimal(n)[i] && decimal(n)[i] <= '9',
    decreases n,
{
    lemma_digit(n % 10);
    if n >= 10 {
        decimals_stand_for_their_number(n / 10);
        let s = decimal(n);
        assert(s.drop_last() =~= decimal(n / 10));
        assert forall|i: int| 0 <= i < s.len() implies '0' <= #[trigger] s[i] && s[i] <= '9' by {
            if i < s.len() - 1 {
                assert(s[i] == decimal(n / 10)[i]);
            }
        }
        if n / 10 < 10 {
            lemma_digit(n / 10);
            assert(decimal(n / 10) == seq![digit(n / 10)]);
            assert(s[0] == digit(n / 10));
        } else {
            assert(s[0] == decimal(n / 10)[0]);
        }
    } else {
        assert(decimal(n).drop_last() =~= Seq::<char>::empty());
        assert(number(Seq::<char>::empty()) == 0);
    }
}

} // verus!
