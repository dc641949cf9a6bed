use vstd::prelude::*;

verus! {

/// How many characters of `text` stand behind its last line break.
pub open spec fn last_line_len(text: Seq<char>) -> nat
    decreases text.len(),
{
    if text.len() == 0 || text.last() == '\n' {
        0
    } else {
        last_line_len(text.drop_last()) + 1
    }
}

/// Whether no line of `text` is longer than `limit` characters.
pub open spec fn lines_within(text: Seq<char>, limit: nat) -> bool {
    forall|i: int| 0 <= i <= text.len() ==> last_line_len(#[trigger] text.take(i)) <= limit
}

/// Whether `text` holds no line break.
pub open spec fn unbroken(text: Seq<char>) -> bool {
    forall|i: int| 0 <= i < text.len() ==> text[i] != '\n'
}

/// Text without a line break makes the last line longer by its own length.
pub proof fn lemma_last_line_extends(text: Seq<char>, more: Seq<char>)
    requires
        unbroken(more),
    ensures
        last_line_len(text + more) == last_line_len(text) + more.len(),
    decreases more.len(),
{
    if more.len() == 0 {
        assert(text + more =~= text);
    } else {
        let shorter = more.drop_last();
        assert((text + more).drop_last() =~= text + shorter);
        assert((text + more).last() == more.last());
        lemma_last_line_extends(text, shorter);
    }
}

/// Lines stay within a limit when text without a line break is added to a last
/// line that has room for it.
pub proof fn lemma_lines_within_extends(text: Seq<char>, more: Seq<char>, limit: nat)
    requires
        lines_within(text, limit),
        unbroken(more),
        last_line_len(text) + more.len() <= limit,
    ensures
        lines_within(text + more, limit),
{
    let whole = text + more;
    assert forall|i: int| 0 <= i <= whole.len() implies last_line_len(#[trigger] whole.take(i))
        <= limit by {
        if i <= text.len() {
            assert(whole.take(i) =~= text.take(i));
        } else {
            let part = more.take(i - text.len());
            assert(whole.take(i) =~= text + part);
            lemma_last_line_extends(text, part);
        }
    }
}

/// Lines stay within a limit when a line break is added.
pub proof fn lemma_lines_within_break(text: Seq<char>, limit: nat)
    requires
        lines_within(text, limit),
    ensures
        lines_within(text.push('\n'), limit),
        last_line_len(text.push('\n')) == 0,
{
    let whole = text.push('\n');
    assert forall|i: int| 0 <= i <= whole.len() implies last_line_len(#[trigger] whole.take(i))
        <= limit by {
        if i <= text.len() {
            assert(whole.take(i) =~= text.take(i));
        } else {
            assert(whole.take(i) =~= whole);
        }
    }
}

/// Lines stay within a limit when text that keeps the limit follows a line
/// break, or follows nothing.
pub proof fn lemma_lines_within_joined(text: Seq<char>, more: Seq<char>, limit: nat)
    requires
        lines_within(text, limit),
        lines_within(more, limit),
        last_line_len(text) == 0,
    ensures
        lines_within(text + more, limit),
        last_line_len(text + more) == last_line_len(more),
{
    let whole = text + more;
    assert forall|k: int| 0 <= k <= more.len() implies last_line_len(text + #[trigger] more.take(k))
        == last_line_len(more.take(k)) by {
        lemma_last_line_restarts(text, more.take(k));
    }
    assert forall|i: int| 0 <= i <= whole.len() implies last_line_len(#[trigger] whole.take(i))
        <= limit by {
        if i <= text.len() {
            assert(whole.take(i) =~= text.take(i));
        } else {
            let part = more.take(i - text.len());
            assert(whole.take(i) =~= text + part);
        }
    }
    assert(more.take(more.len() as int) =~= more);
}

/// Behind a line break, or behind nothing, the last line of further text is as
/// long as it is by itself.
pub proof fn lemma_last_line_restarts(text: Seq<char>, more: Seq<char>)
    requires
        last_line_len(text) == 0,
    ensures
        last_line_len(text + more) == last_line_len(more),
    decreases more.len(),
{
    if more.len() == 0 {
        assert(text + more =~= text);
    } else {
        assert((text + more).drop_last() =~= text + more.drop_last());
        assert((text + more).last() == more.last());
        lemma_last_line_restarts(text, more.drop_last());
    }
}

} // verus!
