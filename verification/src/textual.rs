use vstd::prelude::*;
use crate::decimal::{
    decimal, digit_char, lemma_decimal_injective, lemma_decimal_value, signed_decimal,
};
use crate::emit::{
    epilogue, import_note, jump_if_zero, jump_to, label_line, label_prefix, label_text,
    lemma_label_text_injective, load_immediate, load_slot, parameter_note, prologue, store_slot,
    string_data, LabelKind,
};
use crate::invariants::{lemma_run_ends, lemma_state_after_sound, state_after};
use crate::model::{
    assembly, bind, bind_parameter, bind_parameters, close_if, close_loop, emit, enter_function,
    identifiers_end, initial, instruction, keyword_of, load_operand, operator_of, semicolon_from,
    slot_of, step, step_binary, step_brk, step_close, step_imp, step_jump, step_loop, step_mem,
    step_number, step_otherwise, step_plain, step_ref, step_ret, step_string, step_then,
    step_verbatim, verbatim_piece, verbatim_text, word_size, GenState, Keyword, Operator,
};
use crate::token::{identifier_at, number_at, token_at, TokenModel};

verus! {

/// Whether a piece of text holds no line feed.
pub open spec fn one_line(s: Seq<char>) -> bool {
    forall|k: int| 0 <= k < s.len() ==> #[trigger] s[k] != '\n'
}

/// Whether a piece of text holds neither a line feed nor a dot.
pub open spec fn clean(s: Seq<char>) -> bool {
    forall|k: int| 0 <= k < s.len() ==> #[trigger] s[k] != '\n' && s[k] != '.'
}

/// Whether a piece of text holds no line feed but, it may be, at its end.
pub open spec fn ends_line_only(s: Seq<char>) -> bool {
    forall|k: int| 0 <= k < s.len() - 1 ==> #[trigger] s[k] != '\n'
}

/// Whether a text is made of whole lines: it is empty or ends in a line feed.
pub open spec fn settled(t: Seq<char>) -> bool {
    t.len() == 0 || t.last() == '\n'
}

/// Whether a line of `t` starts at position `p`.
pub open spec fn starts_line(t: Seq<char>, p: int) -> bool {
    0 <= p < t.len() && (p == 0 || t[p - 1] == '\n')
}

/// Whether `t` reads `w` from position `p` on.
pub open spec fn begins_with(t: Seq<char>, p: int, w: Seq<char>) -> bool {
    0 <= p && p + w.len() <= t.len() && t.subrange(p, p + w.len()) == w
}

/// How many lines of `t` that start before position `n` begin with `w`.
pub open spec fn lines_with_upto(t: Seq<char>, w: Seq<char>, n: int) -> nat
    decreases n,
{
    if n <= 0 {
        0
    } else {
        lines_with_upto(t, w, n - 1) + if starts_line(t, n - 1) && begins_with(t, n - 1, w) {
            1nat
        } else {
            0nat
        }
    }
}

/// How many lines of `t` begin with `w`.
pub open spec fn lines_with(t: Seq<char>, w: Seq<char>) -> nat {
    lines_with_upto(t, w, t.len() as int)
}

proof fn lemma_append_line_upto(o: Seq<char>, c: Seq<char>, w: Seq<char>, n: int)
    requires
        settled(o),
        one_line(c),
        ends_line_only(w),
        w.len() >= 1,
        0 <= n <= o.len() + c.len() + 1,
    ensures
        n <= o.len() ==> lines_with_upto(o + c.push('\n'), w, n) == lines_with_upto(o, w, n),
        n > o.len() ==> lines_with_upto(o + c.push('\n'), w, n) == lines_with(o, w) + if begins_with(
            c.push('\n'),
            0,
            w,
        ) {
            1nat
        } else {
            0nat
        },
    decreases n,
{
    let line = c.push('\n');
    let t = o + line;
    let m = o.len() as int;
    if n > 0 {
        lemma_append_line_upto(o, c, w, n - 1);
        let p = n - 1;
        if p < m {
            assert(t[p] == o[p]);
            if p > 0 {
                assert(t[p - 1] == o[p - 1]);
            }
            if p + w.len() <= m {
                assert(t.subrange(p, p + w.len()) =~= o.subrange(p, p + w.len()));
            } else {
                if begins_with(t, p, w) {
                    assert(t.subrange(p, p + w.len())[m - 1 - p] == t[m - 1]);
                    assert(t[m - 1] == o[m - 1]);
                    assert(w[m - 1 - p] == '\n');
                    assert(false);
                }
            }
        } else if p == m {
            if m > 0 {
                assert(t[m - 1] == o[m - 1]);
            }
            assert(starts_line(t, p));
            if m + w.len() <= t.len() {
                assert(t.subrange(m, m + w.len()) =~= line.subrange(0, w.len() as int));
            }
        } else {
            assert(t[p - 1] == line[p - 1 - m]);
            assert(line[p - 1 - m] == c[p - 1 - m]);
            assert(!starts_line(t, p));
        }
    }
}

/// A line written behind whole lines counts once where it begins with `w`,
/// and changes nothing of the lines before it.
pub proof fn lemma_append_line(o: Seq<char>, c: Seq<char>, w: Seq<char>)
    requires
        settled(o),
        one_line(c),
        ends_line_only(w),
        w.len() >= 1,
    ensures
        settled(o + c.push('\n')),
        lines_with(o + c.push('\n'), w) == lines_with(o, w) + if begins_with(c.push('\n'), 0, w) {
            1nat
        } else {
            0nat
        },
{
    lemma_append_line_upto(o, c, w, (o.len() + c.len() + 1) as int);
}

proof fn lemma_clean_join(a: Seq<char>, b: Seq<char>)
    requires
        clean(a),
        clean(b),
    ensures
        clean(a + b),
{
    assert forall|k: int| 0 <= k < (a + b).len() implies #[trigger] (a + b)[k] != '\n' && (a
        + b)[k] != '.' by {
        if k < a.len() {
            assert((a + b)[k] == a[k]);
        } else {
            assert((a + b)[k] == b[k - a.len()]);
        }
    }
}

proof fn lemma_clean_decimal(n: nat)
    ensures
        clean(decimal(n)),
    decreases n,
{
    if n < 10 {
        assert(decimal(n) =~= seq![digit_char(n)]);
    } else {
        lemma_clean_decimal(n / 10);
        let d = n % 10;
        assert(d < 10);
        assert(clean(seq![digit_char(d)]));
        assert(decimal(n) =~= decimal(n / 10) + seq![digit_char(d)]);
        lemma_clean_join(decimal(n / 10), seq![digit_char(d)]);
    }
}

proof fn lemma_clean_signed(n: int)
    ensures
        clean(signed_decimal(n)),
{
    if n < 0 {
        lemma_clean_decimal((-n) as nat);
        assert(clean(seq!['-']));
        lemma_clean_join(seq!['-'], decimal((-n) as nat));
    } else {
        lemma_clean_decimal(n as nat);
    }
}

/// What the line that defines the start of a loop begins with.
pub open spec fn loop_start_mark() -> Seq<char> {
    ".loop_start"@
}

/// What the line that defines the end of a loop begins with.
pub open spec fn loop_end_mark() -> Seq<char> {
    ".loop_end"@
}

/// What the line that defines the end of a conditional begins with.
pub open spec fn if_end_mark() -> Seq<char> {
    ".if_end"@
}

/// What the line that opens a conditional begins with: the jump to its end.
pub open spec fn branch_mark() -> Seq<char> {
    "    je .if_end"@
}

/// What the line that defines the label of family `kind` with number `id`
/// begins with: the label and the colon behind it.
pub open spec fn definition(kind: LabelKind, id: nat) -> Seq<char> {
    label_text(kind, id).push(':')
}

/// Whether `w` is the beginning of the definition of some label.
pub open spec fn is_definition(w: Seq<char>) -> bool {
    exists|kind: LabelKind, id: nat| w == #[trigger] definition(kind, id)
}

/// The line that opens the conditional with number `id`: the jump to its
/// end, taken where the primary register holds zero.
pub open spec fn branch_to(id: nat) -> Seq<char> {
    ("    je "@ + label_text(LabelKind::IfEnd, id)).push('\n')
}

/// Whether `w` is the line that opens some conditional.
pub open spec fn is_branch(w: Seq<char>) -> bool {
    exists|id: nat| w == #[trigger] branch_to(id)
}

/// Whether `w` is a beginning that is counted: one of the four marks, the
/// definition of a label, or the line that opens a conditional.
pub open spec fn counted(w: Seq<char>) -> bool {
    w == loop_start_mark() || w == loop_end_mark() || w == if_end_mark() || w == branch_mark()
        || is_definition(w) || is_branch(w)
}

/// Whether `t` is made of whole lines and has as many lines of each counted
/// kind as `o`.
pub open spec fn same_tally(o: Seq<char>, t: Seq<char>) -> bool {
    settled(t) && forall|w: Seq<char>| counted(w) ==> #[trigger] lines_with(t, w) == lines_with(o, w)
}

proof fn lemma_definition_one_line(kind: LabelKind, id: nat)
    ensures
        one_line(definition(kind, id)),
        definition(kind, id).len() >= 6,
        definition(kind, id)[0] == '.',
{
    lemma_label_one_line(kind, id);
    let label = label_text(kind, id);
    let w = definition(kind, id);
    assert forall|k: int| 0 <= k < w.len() implies #[trigger] w[k] != '\n' by {
        if k < label.len() {
            assert(w[k] == label[k]);
        }
    }
    assert(w[0] == label[0]);
}

proof fn lemma_branch_to(id: nat)
    ensures
        ends_line_only(branch_to(id)),
        one_line(branch_to(id).drop_last()),
        branch_to(id).len() >= 13,
        branch_to(id)[0] == ' ',
        branch_to(id)[5] == 'e',
        branch_to(id)[7] == '.',
        branch_to(id).last() == '\n',
{
    reveal_strlit("    je ");
    lemma_label_one_line(LabelKind::IfEnd, id);
    let label = label_text(LabelKind::IfEnd, id);
    let c = "    je "@ + label;
    let w = branch_to(id);
    assert(w.drop_last() =~= c);
    assert forall|k: int| 0 <= k < c.len() implies #[trigger] c[k] != '\n' by {
        if k >= 7 {
            assert(c[k] == label[k - 7]);
        }
    }
    assert forall|k: int| 0 <= k < w.len() - 1 implies #[trigger] w[k] != '\n' by {
        assert(w[k] == c[k]);
    }
    assert(w[0] == c[0]);
    assert(w[5] == c[5]);
    assert(w[7] == c[7]);
    assert(c[7] == label[0]);
}

proof fn lemma_marks()
    ensures
        forall|w: Seq<char>| #[trigger]
            counted(w) ==> ends_line_only(w) && w.len() >= 2 && (w[0] == '.' || (w.len() >= 8
                && w[7] == '.' && w[0] == ' ' && w[5] == 'e')),
{
    reveal_strlit(".loop_start");
    reveal_strlit(".loop_end");
    reveal_strlit(".if_end");
    reveal_strlit("    je .if_end");
    assert forall|w: Seq<char>| #[trigger] counted(w) implies ends_line_only(w) && w.len() >= 2
        && (w[0] == '.' || (w.len() >= 8 && w[7] == '.' && w[0] == ' ' && w[5] == 'e')) by {
        if is_definition(w) {
            let (kind, id) = choose|kind: LabelKind, id: nat| w == #[trigger] definition(kind, id);
            lemma_definition_one_line(kind, id);
        } else if is_branch(w) {
            let id = choose|id: nat| w == #[trigger] branch_to(id);
            lemma_branch_to(id);
        }
    }
}

/// A line without a dot counts for nothing.
pub proof fn lemma_plain_line(o: Seq<char>, c: Seq<char>)
    requires
        settled(o),
        clean(c),
    ensures
        same_tally(o, o + c.push('\n')),
{
    lemma_marks();
    let line = c.push('\n');
    assert forall|w: Seq<char>| counted(w) implies #[trigger] lines_with(o + line, w)
        == lines_with(o, w) by {
        lemma_append_line(o, c, w);
        if begins_with(line, 0, w) {
            let d: int = if w[0] == '.' {
                0
            } else {
                7
            };
            assert(line.subrange(0, w.len() as int)[d] == line[d]);
            if d < c.len() {
                assert(line[d] == c[d]);
            }
            assert(false);
        }
    }
    assert(counted(loop_start_mark()));
    lemma_append_line(o, c, loop_start_mark());
}

/// A line that begins with four blanks and `jmp` counts for nothing.
proof fn lemma_jump_line(o: Seq<char>, target: Seq<char>)
    requires
        settled(o),
        one_line(target),
    ensures
        same_tally(o, o + jump_to(target)),
{
    lemma_marks();
    reveal_strlit("    jmp ");
    reveal_strlit("\n");
    let c = "    jmp "@ + target;
    let line = c.push('\n');
    assert(jump_to(target) =~= line);
    assert(one_line(c)) by {
        assert forall|k: int| 0 <= k < c.len() implies #[trigger] c[k] != '\n' by {
            if k >= 8 {
                assert(c[k] == target[k - 8]);
            }
        }
    }
    assert forall|w: Seq<char>| counted(w) implies #[trigger] lines_with(o + line, w)
        == lines_with(o, w) by {
        lemma_append_line(o, c, w);
        if begins_with(line, 0, w) {
            assert(line.subrange(0, w.len() as int)[0] == line[0]);
            assert(line.subrange(0, w.len() as int)[5] == line[5]);
            assert(line[0] == ' ');
            assert(line[5] == 'm');
            assert(false);
        }
    }
    assert(counted(loop_start_mark()));
    lemma_append_line(o, c, loop_start_mark());
}

proof fn lemma_label_one_line(kind: LabelKind, id: nat)
    ensures
        one_line(label_text(kind, id)),
        label_text(kind, id).len() >= 5,
        label_text(kind, id)[0] == '.',
        label_text(kind, id)[1] == label_prefix(kind)[1],
        label_text(kind, id).subrange(0, label_prefix(kind).len() as int) == label_prefix(kind),
{
    reveal_strlit(".loop_start");
    reveal_strlit(".loop_end");
    reveal_strlit(".if_end");
    reveal_strlit(".str");
    lemma_clean_decimal(id);
    lemma_decimal_value(id);
    let p = label_prefix(kind);
    let t = label_text(kind, id);
    assert forall|k: int| 0 <= k < t.len() implies #[trigger] t[k] != '\n' by {
        if k < p.len() {
            assert(t[k] == p[k]);
        } else {
            assert(t[k] == decimal(id)[k - p.len()]);
        }
    }
    assert(t.subrange(0, p.len() as int) =~= p);
    assert(t[0] == p[0]);
    assert(t[1] == p[1]);
}

/// Whether `t` has the label definitions of `o` and one more, that of the
/// label of family `kind` with number `id`.
pub open spec fn defines(o: Seq<char>, t: Seq<char>, kind: LabelKind, id: nat) -> bool {
    forall|k: LabelKind, i: nat|
        lines_with(t, #[trigger] definition(k, i)) == lines_with(o, definition(k, i)) + if k
            == kind && i == id {
            1nat
        } else {
            0nat
        }
}

/// Whether `t` has the lines of `o` that open conditionals and one more,
/// the line that opens the conditional with number `id`.
pub open spec fn branches(o: Seq<char>, t: Seq<char>, id: nat) -> bool {
    forall|i: nat|
        lines_with(t, #[trigger] branch_to(i)) == lines_with(o, branch_to(i)) + if i == id {
            1nat
        } else {
            0nat
        }
}

/// Whether `t` has the lines of `o` that open conditionals and no other.
pub open spec fn branches_nothing(o: Seq<char>, t: Seq<char>) -> bool {
    forall|i: nat| lines_with(t, #[trigger] branch_to(i)) == lines_with(o, branch_to(i))
}

/// Whether `t` has the label definitions of `o` and no other.
pub open spec fn defines_nothing(o: Seq<char>, t: Seq<char>) -> bool {
    forall|k: LabelKind, i: nat|
        lines_with(t, #[trigger] definition(k, i)) == lines_with(o, definition(k, i))
}

proof fn lemma_decimal_digits(n: nat)
    ensures
        forall|k: int| 0 <= k < decimal(n).len() ==> '0' <= #[trigger] decimal(n)[k] <= '9',
        decimal(n).len() >= 1,
    decreases n,
{
    if n < 10 {
        assert(decimal(n) =~= seq![digit_char(n)]);
    } else {
        lemma_decimal_digits(n / 10);
        let d = n % 10;
        assert(d < 10);
        let s = decimal(n);
        assert(s =~= decimal(n / 10).push(digit_char(d)));
        assert forall|k: int| 0 <= k < s.len() implies '0' <= #[trigger] s[k] <= '9' by {
            if k < decimal(n / 10).len() {
                assert(s[k] == decimal(n / 10)[k]);
            } else {
                assert(s[k] == digit_char(d));
            }
        }
    }
}

/// A line that begins with a label and a colon begins with the definition
/// of that label and of no other.
proof fn lemma_definition_begins(
    kind: LabelKind,
    id: nat,
    rest: Seq<char>,
    k: LabelKind,
    i: nat,
)
    requires
        rest.len() >= 1,
        rest[0] == ':',
    ensures
        begins_with((label_text(kind, id) + rest).push('\n'), 0, definition(k, i)) <==> (k == kind
            && i == id),
{
    reveal_strlit(".loop_start");
    reveal_strlit(".loop_end");
    reveal_strlit(".if_end");
    reveal_strlit(".str");
    lemma_decimal_digits(id);
    lemma_decimal_digits(i);
    let line = (label_text(kind, id) + rest).push('\n');
    let w = definition(k, i);
    let p = label_prefix(kind);
    let q = label_prefix(k);
    let a = decimal(id);
    let b = decimal(i);
    assert(line[1] == p[1]);
    assert(w[1] == q[1]);
    if k == kind && i == id {
        assert(line.subrange(0, w.len() as int) =~= w);
    }
    if begins_with(line, 0, w) {
        let head = line.subrange(0, w.len() as int);
        assert(head[1] == line[1]);
        if w.len() > 6 {
            assert(head[6] == line[6]);
            assert(w[6] == if q.len() > 6 {
                q[6]
            } else {
                w[6]
            });
            assert(line[6] == if p.len() > 6 {
                p[6]
            } else {
                line[6]
            });
        }
        assert(k == kind);
        // Behind the common prefix stand the digits, and then the colon.
        let n = p.len() as int;
        if b.len() < a.len() {
            assert(head[n + b.len()] == line[n + b.len()]);
            assert(w[n + b.len()] == ':');
            assert(line[n + b.len()] == a[b.len() as int]);
            assert(false);
        }
        if a.len() < b.len() {
            assert(head[n + a.len()] == line[n + a.len()]);
            assert(w[n + a.len()] == b[a.len() as int]);
            assert(line[n + a.len()] == rest[0]);
            assert(false);
        }
        assert forall|j: int| 0 <= j < a.len() implies a[j] == b[j] by {
            assert(head[n + j] == line[n + j]);
            assert(w[n + j] == b[j]);
            assert(line[n + j] == a[j]);
        }
        assert(a =~= b);
        lemma_decimal_injective(id, i);
    }
}

/// A line that begins with a label counts once for the kind of the label:
/// as the start of a loop, as the end of a loop, or as the end of a
/// conditional; the label of a string counts for nothing.
proof fn lemma_label_led_line(o: Seq<char>, kind: LabelKind, id: nat, rest: Seq<char>)
    requires
        settled(o),
        one_line(rest),
        rest.len() >= 1,
        rest[0] == ':',
    ensures
        ({
            let t = o + (label_text(kind, id) + rest).push('\n');
            &&& settled(t)
            &&& defines(o, t, kind, id)
            &&& branches_nothing(o, t)
            &&& lines_with(t, loop_start_mark()) == lines_with(o, loop_start_mark()) + if kind
                == LabelKind::LoopStart {
                1nat
            } else {
                0nat
            }
            &&& lines_with(t, loop_end_mark()) == lines_with(o, loop_end_mark()) + if kind
                == LabelKind::LoopEnd {
                1nat
            } else {
                0nat
            }
            &&& lines_with(t, if_end_mark()) == lines_with(o, if_end_mark()) + if kind
                == LabelKind::IfEnd {
                1nat
            } else {
                0nat
            }
            &&& lines_with(t, branch_mark()) == lines_with(o, branch_mark())
        }),
{
    reveal_strlit(".loop_start");
    reveal_strlit(".loop_end");
    reveal_strlit(".if_end");
    reveal_strlit(".str");
    reveal_strlit("    je .if_end");
    lemma_label_one_line(kind, id);
    let label = label_text(kind, id);
    let p = label_prefix(kind);
    let c = label + rest;
    let line = c.push('\n');
    assert(one_line(c)) by {
        assert forall|k: int| 0 <= k < c.len() implies #[trigger] c[k] != '\n' by {
            if k < label.len() {
                assert(c[k] == label[k]);
            } else {
                assert(c[k] == rest[k - label.len()]);
            }
        }
    }
    lemma_append_line(o, c, loop_start_mark());
    lemma_append_line(o, c, loop_end_mark());
    lemma_append_line(o, c, if_end_mark());
    lemma_append_line(o, c, branch_mark());
    assert(line[0] == label[0]);
    assert(line[1] == label[1]);
    assert(forall|k: int| 0 <= k < p.len() ==> line[k] == p[k]) by {
        assert forall|k: int| 0 <= k < p.len() implies line[k] == p[k] by {
            assert(line[k] == label[k]);
            assert(label.subrange(0, p.len() as int)[k] == label[k]);
        }
    }
    assert(line.subrange(0, p.len() as int) =~= p);
    let a = loop_start_mark();
    let b = loop_end_mark();
    let i = if_end_mark();
    let j = branch_mark();
    if begins_with(line, 0, j) {
        assert(line.subrange(0, j.len() as int)[0] == line[0]);
        assert(false);
    }
    if kind != LabelKind::LoopStart && begins_with(line, 0, a) {
        assert(line.subrange(0, a.len() as int)[1] == line[1]);
        assert(line.subrange(0, a.len() as int)[6] == line[6]);
        assert(false);
    }
    if kind != LabelKind::LoopEnd && begins_with(line, 0, b) {
        assert(line.subrange(0, b.len() as int)[1] == line[1]);
        assert(line.subrange(0, b.len() as int)[6] == line[6]);
        assert(false);
    }
    if kind != LabelKind::IfEnd && begins_with(line, 0, i) {
        assert(line.subrange(0, i.len() as int)[1] == line[1]);
        assert(false);
    }
    assert forall|k2: LabelKind, i2: nat|
        lines_with(o + line, #[trigger] definition(k2, i2)) == lines_with(o, definition(k2, i2))
            + if k2 == kind && i2 == id {
            1nat
        } else {
            0nat
        } by {
        lemma_definition_one_line(k2, i2);
        lemma_append_line(o, c, definition(k2, i2));
        lemma_definition_begins(kind, id, rest, k2, i2);
    }
    assert forall|i2: nat|
        lines_with(o + line, #[trigger] branch_to(i2)) == lines_with(o, branch_to(i2)) by {
        let w = branch_to(i2);
        lemma_branch_to(i2);
        lemma_append_line(o, c, w);
        if begins_with(line, 0, w) {
            assert(line.subrange(0, w.len() as int)[0] == line[0]);
            assert(false);
        }
    }
}

/// The line that jumps to the end of a conditional where the primary
/// register holds zero counts once as the opening of a conditional.
proof fn lemma_branch_line(o: Seq<char>, id: nat)
    requires
        settled(o),
    ensures
        ({
            let t = o + ("    je "@ + label_text(LabelKind::IfEnd, id)).push('\n');
            &&& settled(t)
            &&& defines_nothing(o, t)
            &&& branches(o, t, id)
            &&& lines_with(t, loop_start_mark()) == lines_with(o, loop_start_mark())
            &&& lines_with(t, loop_end_mark()) == lines_with(o, loop_end_mark())
            &&& lines_with(t, if_end_mark()) == lines_with(o, if_end_mark())
            &&& lines_with(t, branch_mark()) == lines_with(o, branch_mark()) + 1
        }),
{
    reveal_strlit(".loop_start");
    reveal_strlit(".loop_end");
    reveal_strlit(".if_end");
    reveal_strlit("    je .if_end");
    reveal_strlit("    je ");
    lemma_label_one_line(LabelKind::IfEnd, id);
    let label = label_text(LabelKind::IfEnd, id);
    let c = "    je "@ + label;
    let line = c.push('\n');
    assert(one_line(c)) by {
        assert forall|k: int| 0 <= k < c.len() implies #[trigger] c[k] != '\n' by {
            if k >= 7 {
                assert(c[k] == label[k - 7]);
            }
        }
    }
    lemma_append_line(o, c, loop_start_mark());
    lemma_append_line(o, c, loop_end_mark());
    lemma_append_line(o, c, if_end_mark());
    lemma_append_line(o, c, branch_mark());
    assert(line[0] == ' ');
    let j = branch_mark();
    assert(line.subrange(0, j.len() as int) =~= j) by {
        assert forall|k: int| 0 <= k < j.len() implies line.subrange(0, j.len() as int)[k]
            == j[k] by {
            if k >= 7 {
                assert(line[k] == label[k - 7]);
                assert(label.subrange(0, 7)[k - 7] == label[k - 7]);
            }
        }
    }
    if begins_with(line, 0, loop_start_mark()) {
        assert(line.subrange(0, loop_start_mark().len() as int)[0] == line[0]);
        assert(false);
    }
    if begins_with(line, 0, loop_end_mark()) {
        assert(line.subrange(0, loop_end_mark().len() as int)[0] == line[0]);
        assert(false);
    }
    if begins_with(line, 0, if_end_mark()) {
        assert(line.subrange(0, if_end_mark().len() as int)[0] == line[0]);
        assert(false);
    }
    assert forall|k2: LabelKind, i2: nat|
        lines_with(o + line, #[trigger] definition(k2, i2)) == lines_with(
            o,
            definition(k2, i2),
        ) by {
        let w = definition(k2, i2);
        lemma_definition_one_line(k2, i2);
        lemma_append_line(o, c, w);
        if begins_with(line, 0, w) {
            assert(line.subrange(0, w.len() as int)[0] == line[0]);
            assert(false);
        }
    }
    assert forall|i2: nat|
        lines_with(o + line, #[trigger] branch_to(i2)) == lines_with(o, branch_to(i2)) + if i2
            == id {
            1nat
        } else {
            0nat
        } by {
        let w = branch_to(i2);
        lemma_branch_to(i2);
        lemma_append_line(o, c, w);
        if i2 == id {
            assert(line.subrange(0, w.len() as int) =~= w);
        }
        if begins_with(line, 0, w) && i2 != id {
            // The line feed of `w` can only meet the one that ends the line.
            let head = line.subrange(0, w.len() as int);
            if w.len() < line.len() {
                assert(head[w.len() - 1] == line[w.len() - 1]);
                assert(line[w.len() - 1] == c[w.len() - 1]);
                assert(false);
            }
            let other = label_text(LabelKind::IfEnd, i2);
            assert(other.len() == label.len());
            assert forall|k: int| 0 <= k < label.len() implies label[k] == other[k] by {
                assert(head[7 + k] == line[7 + k]);
                assert(line[7 + k] == label[k]);
                assert(w[7 + k] == other[k]);
            }
            assert(label =~= other);
            lemma_label_text_injective(LabelKind::IfEnd, id, LabelKind::IfEnd, i2);
        }
    }
}

proof fn lemma_same_tally_chain(o: Seq<char>, t: Seq<char>, u: Seq<char>)
    requires
        same_tally(o, t),
        same_tally(t, u),
    ensures
        same_tally(o, u),
{
    assert forall|w: Seq<char>| counted(w) implies #[trigger] lines_with(u, w) == lines_with(
        o,
        w,
    ) by {
        assert(lines_with(t, w) == lines_with(o, w));
    }
}

proof fn lemma_same_tally_self(o: Seq<char>)
    requires
        settled(o),
    ensures
        same_tally(o, o),
        same_tally(o, o + Seq::<char>::empty()),
{
    assert(o + Seq::<char>::empty() =~= o);
}

proof fn lemma_load_slot(o: Seq<char>, reg: Seq<char>, offset: int)
    requires
        settled(o),
        clean(reg),
    ensures
        same_tally(o, o + load_slot(reg, offset)),
{
    reveal_strlit("    mov ");
    reveal_strlit(", [rbp");
    reveal_strlit("]\n");
    lemma_clean_signed(offset);
    let c = "    mov "@ + reg + ", [rbp"@ + signed_decimal(offset) + seq![']'];
    lemma_clean_join("    mov "@, reg);
    lemma_clean_join("    mov "@ + reg, ", [rbp"@);
    lemma_clean_join("    mov "@ + reg + ", [rbp"@, signed_decimal(offset));
    lemma_clean_join("    mov "@ + reg + ", [rbp"@ + signed_decimal(offset), seq![']']);
    assert(load_slot(reg, offset) =~= c.push('\n'));
    lemma_plain_line(o, c);
}

proof fn lemma_load_immediate(o: Seq<char>, reg: Seq<char>, digits: Seq<char>)
    requires
        settled(o),
        clean(reg),
        clean(digits),
    ensures
        same_tally(o, o + load_immediate(reg, digits)),
{
    reveal_strlit("    mov ");
    reveal_strlit(", ");
    reveal_strlit("\n");
    let c = "    mov "@ + reg + ", "@ + digits;
    lemma_clean_join("    mov "@, reg);
    lemma_clean_join("    mov "@ + reg, ", "@);
    lemma_clean_join("    mov "@ + reg + ", "@, digits);
    assert(load_immediate(reg, digits) =~= c.push('\n'));
    lemma_plain_line(o, c);
}

proof fn lemma_store_slot(o: Seq<char>, offset: int)
    requires
        settled(o),
    ensures
        same_tally(o, o + store_slot(offset)),
{
    reveal_strlit("    mov [rbp");
    reveal_strlit("], rax\n");
    reveal_strlit("], rax");
    lemma_clean_signed(offset);
    let c = "    mov [rbp"@ + signed_decimal(offset) + "], rax"@;
    lemma_clean_join("    mov [rbp"@, signed_decimal(offset));
    lemma_clean_join("    mov [rbp"@ + signed_decimal(offset), "], rax"@);
    assert(store_slot(offset) =~= c.push('\n'));
    lemma_plain_line(o, c);
}

proof fn lemma_epilogue(o: Seq<char>)
    requires
        settled(o),
    ensures
        same_tally(o, o + epilogue()),
{
    reveal_strlit("    leave\n    ret\n");
    reveal_strlit("    leave");
    reveal_strlit("    ret");
    let a = "    leave"@;
    let b = "    ret"@;
    assert(o + epilogue() =~= o + a.push('\n') + b.push('\n'));
    lemma_plain_line(o, a);
    lemma_plain_line(o + a.push('\n'), b);
    lemma_same_tally_chain(o, o + a.push('\n'), o + a.push('\n') + b.push('\n'));
}

proof fn lemma_prologue(o: Seq<char>, name: Seq<char>)
    requires
        settled(o),
        clean(name),
    ensures
        same_tally(o, o + prologue(name)),
{
    reveal_strlit(":\n    push rbp\n    mov rbp, rsp\n");
    reveal_strlit("    push rbp");
    reveal_strlit("    mov rbp, rsp");
    let a = name + seq![':'];
    let b = "    push rbp"@;
    let c = "    mov rbp, rsp"@;
    lemma_clean_join(name, seq![':']);
    let t1 = o + a.push('\n');
    let t2 = t1 + b.push('\n');
    let t3 = t2 + c.push('\n');
    assert(o + prologue(name) =~= t3);
    lemma_plain_line(o, a);
    lemma_plain_line(t1, b);
    lemma_plain_line(t2, c);
    lemma_same_tally_chain(o, t1, t2);
    lemma_same_tally_chain(o, t2, t3);
}

proof fn lemma_parameter_note(o: Seq<char>, name: Seq<char>, offset: int)
    requires
        settled(o),
        clean(name),
    ensures
        same_tally(o, o + parameter_note(name, offset)),
{
    reveal_strlit("    ; arg ");
    reveal_strlit(" at [rbp");
    reveal_strlit("]\n");
    lemma_clean_signed(offset);
    let c = "    ; arg "@ + name + " at [rbp"@ + signed_decimal(offset) + seq![']'];
    lemma_clean_join("    ; arg "@, name);
    lemma_clean_join("    ; arg "@ + name, " at [rbp"@);
    lemma_clean_join("    ; arg "@ + name + " at [rbp"@, signed_decimal(offset));
    lemma_clean_join("    ; arg "@ + name + " at [rbp"@ + signed_decimal(offset), seq![']']);
    assert(parameter_note(name, offset) =~= c.push('\n'));
    lemma_plain_line(o, c);
}

proof fn lemma_import_note(o: Seq<char>, path: Seq<char>)
    requires
        settled(o),
        clean(path),
    ensures
        same_tally(o, o + import_note(path)),
{
    reveal_strlit("    ; import ");
    reveal_strlit("\n");
    let c = "    ; import "@ + path;
    lemma_clean_join("    ; import "@, path);
    assert(import_note(path) =~= c.push('\n'));
    lemma_plain_line(o, c);
}

proof fn lemma_three_lines(o: Seq<char>, a: Seq<char>, b: Seq<char>, c: Seq<char>)
    requires
        settled(o),
        clean(a),
        clean(b),
        clean(c),
    ensures
        same_tally(o, o + (a.push('\n') + b.push('\n') + c.push('\n'))),
        same_tally(o, o + (a.push('\n') + b.push('\n'))),
{
    let t1 = o + a.push('\n');
    let t2 = t1 + b.push('\n');
    let t3 = t2 + c.push('\n');
    assert(o + (a.push('\n') + b.push('\n') + c.push('\n')) =~= t3);
    assert(o + (a.push('\n') + b.push('\n')) =~= t2);
    lemma_plain_line(o, a);
    lemma_plain_line(t1, b);
    lemma_plain_line(t2, c);
    lemma_same_tally_chain(o, t1, t2);
    lemma_same_tally_chain(o, t2, t3);
}

proof fn lemma_instruction(o: Seq<char>, op: Operator)
    requires
        settled(o),
    ensures
        same_tally(o, o + instruction(op)),
{
    reveal_strlit("    add rax, rbx\n");
    reveal_strlit("    sub rax, rbx\n");
    reveal_strlit("    imul rax, rbx\n");
    reveal_strlit("    cqo\n    idiv rbx\n");
    reveal_strlit("    cmp rax, rbx\n    sete al\n    movzx rax, al\n");
    reveal_strlit("    cmp rax, rbx\n    setne al\n    movzx rax, al\n");
    reveal_strlit("    cmp rax, rbx\n    setl al\n    movzx rax, al\n");
    reveal_strlit("    cmp rax, rbx\n    setg al\n    movzx rax, al\n");
    reveal_strlit("    cmp rax, rbx\n    setle al\n    movzx rax, al\n");
    reveal_strlit("    cmp rax, rbx\n    setge al\n    movzx rax, al\n");
    reveal_strlit("    add rax, rbx");
    reveal_strlit("    sub rax, rbx");
    reveal_strlit("    imul rax, rbx");
    reveal_strlit("    cqo");
    reveal_strlit("    idiv rbx");
    reveal_strlit("    cmp rax, rbx");
    reveal_strlit("    sete al");
    reveal_strlit("    setne al");
    reveal_strlit("    setl al");
    reveal_strlit("    setg al");
    reveal_strlit("    setle al");
    reveal_strlit("    setge al");
    reveal_strlit("    movzx rax, al");
    let cmp = "    cmp rax, rbx"@;
    let ext = "    movzx rax, al"@;
    match op {
        Operator::Add => {
            assert(instruction(op) =~= "    add rax, rbx"@.push('\n'));
            lemma_plain_line(o, "    add rax, rbx"@);
        },
        Operator::Sub => {
            assert(instruction(op) =~= "    sub rax, rbx"@.push('\n'));
            lemma_plain_line(o, "    sub rax, rbx"@);
        },
        Operator::Mul => {
            assert(instruction(op) =~= "    imul rax, rbx"@.push('\n'));
            lemma_plain_line(o, "    imul rax, rbx"@);
        },
        Operator::Div => {
            assert(instruction(op) =~= "    cqo"@.push('\n') + "    idiv rbx"@.push('\n'));
            lemma_three_lines(o, "    cqo"@, "    idiv rbx"@, cmp);
        },
        Operator::Equal => {
            assert(instruction(op) =~= cmp.push('\n') + "    sete al"@.push('\n') + ext.push(
                '\n',
            ));
            lemma_three_lines(o, cmp, "    sete al"@, ext);
        },
        Operator::NotEqual => {
            assert(instruction(op) =~= cmp.push('\n') + "    setne al"@.push('\n') + ext.push(
                '\n',
            ));
            lemma_three_lines(o, cmp, "    setne al"@, ext);
        },
        Operator::Less => {
            assert(instruction(op) =~= cmp.push('\n') + "    setl al"@.push('\n') + ext.push(
                '\n',
            ));
            lemma_three_lines(o, cmp, "    setl al"@, ext);
        },
        Operator::Greater => {
            assert(instruction(op) =~= cmp.push('\n') + "    setg al"@.push('\n') + ext.push(
                '\n',
            ));
            lemma_three_lines(o, cmp, "    setg al"@, ext);
        },
        Operator::LessEqual => {
            assert(instruction(op) =~= cmp.push('\n') + "    setle al"@.push('\n') + ext.push(
                '\n',
            ));
            lemma_three_lines(o, cmp, "    setle al"@, ext);
        },
        Operator::GreaterEqual => {
            assert(instruction(op) =~= cmp.push('\n') + "    setge al"@.push('\n') + ext.push(
                '\n',
            ));
            lemma_three_lines(o, cmp, "    setge al"@, ext);
        },
        _ => {
            lemma_same_tally_self(o);
        },
    }
}

proof fn lemma_label_line(o: Seq<char>, kind: LabelKind, id: nat)
    requires
        settled(o),
    ensures
        ({
            let t = o + label_line(label_text(kind, id));
            &&& settled(t)
            &&& defines(o, t, kind, id)
            &&& branches_nothing(o, t)
            &&& lines_with(t, loop_start_mark()) == lines_with(o, loop_start_mark()) + if kind
                == LabelKind::LoopStart {
                1nat
            } else {
                0nat
            }
            &&& lines_with(t, loop_end_mark()) == lines_with(o, loop_end_mark()) + if kind
                == LabelKind::LoopEnd {
                1nat
            } else {
                0nat
            }
            &&& lines_with(t, if_end_mark()) == lines_with(o, if_end_mark()) + if kind
                == LabelKind::IfEnd {
                1nat
            } else {
                0nat
            }
            &&& lines_with(t, branch_mark()) == lines_with(o, branch_mark())
        }),
{
    reveal_strlit(":\n");
    let label = label_text(kind, id);
    assert(label_line(label) =~= (label + seq![':']).push('\n'));
    lemma_label_led_line(o, kind, id, seq![':']);
}

proof fn lemma_string_data(o: Seq<char>, id: nat, content: Seq<char>)
    requires
        settled(o),
        one_line(content),
    ensures
        ({
            let t = o + string_data(label_text(LabelKind::Text, id), content);
            &&& settled(t)
            &&& defines(o, t, LabelKind::Text, id)
            &&& branches_nothing(o, t)
            &&& lines_with(t, loop_start_mark()) == lines_with(o, loop_start_mark())
            &&& lines_with(t, loop_end_mark()) == lines_with(o, loop_end_mark())
            &&& lines_with(t, if_end_mark()) == lines_with(o, if_end_mark())
            &&& lines_with(t, branch_mark()) == lines_with(o, branch_mark())
        }),
{
    reveal_strlit(": db '");
    reveal_strlit("', 0\n");
    let label = label_text(LabelKind::Text, id);
    let rest = ": db '"@ + content + seq!['\'', ',', ' ', '0'];
    assert(one_line(rest)) by {
        assert forall|k: int| 0 <= k < rest.len() implies #[trigger] rest[k] != '\n' by {
            if 6 <= k < 6 + content.len() {
                assert(rest[k] == content[k - 6]);
            }
        }
    }
    assert(rest[0] == ':');
    assert(string_data(label, content) =~= (label + rest).push('\n'));
    lemma_label_led_line(o, LabelKind::Text, id, rest);
}

proof fn lemma_jump_if_zero(o: Seq<char>, id: nat)
    requires
        settled(o),
    ensures
        ({
            let t = o + jump_if_zero(label_text(LabelKind::IfEnd, id));
            &&& settled(t)
            &&& defines_nothing(o, t)
            &&& branches(o, t, id)
            &&& lines_with(t, loop_start_mark()) == lines_with(o, loop_start_mark())
            &&& lines_with(t, loop_end_mark()) == lines_with(o, loop_end_mark())
            &&& lines_with(t, if_end_mark()) == lines_with(o, if_end_mark())
            &&& lines_with(t, branch_mark()) == lines_with(o, branch_mark()) + 1
        }),
{
    reveal_strlit("    cmp rax, 0\n    je ");
    reveal_strlit("    cmp rax, 0");
    reveal_strlit("    je ");
    reveal_strlit("\n");
    let label = label_text(LabelKind::IfEnd, id);
    let a = "    cmp rax, 0"@;
    let t1 = o + a.push('\n');
    assert(o + jump_if_zero(label) =~= t1 + ("    je "@ + label).push('\n'));
    lemma_plain_line(o, a);
    lemma_branch_line(t1, id);
    assert(counted(loop_start_mark()) && counted(loop_end_mark()) && counted(if_end_mark())
        && counted(branch_mark()));
    let t = t1 + ("    je "@ + label).push('\n');
    assert forall|k2: LabelKind, i2: nat|
        lines_with(t, #[trigger] definition(k2, i2)) == lines_with(o, definition(k2, i2)) by {
        assert(counted(definition(k2, i2)));
        assert(lines_with(t1, definition(k2, i2)) == lines_with(o, definition(k2, i2)));
    }
    assert forall|i2: nat|
        lines_with(t, #[trigger] branch_to(i2)) == lines_with(o, branch_to(i2)) + if i2 == id {
            1nat
        } else {
            0nat
        } by {
        assert(counted(branch_to(i2)));
        assert(lines_with(t1, branch_to(i2)) == lines_with(o, branch_to(i2)));
    }
}

proof fn lemma_jump_to_label(o: Seq<char>, kind: LabelKind, id: nat)
    requires
        settled(o),
    ensures
        same_tally(o, o + jump_to(label_text(kind, id))),
{
    lemma_label_one_line(kind, id);
    lemma_jump_line(o, label_text(kind, id));
}

/// Whether the text inside a token can be written into a line without
/// ending it or passing for a label: an identifier and a number hold
/// neither a line feed nor a dot, a string literal holds no line feed.
pub open spec fn tame(token: TokenModel) -> bool {
    match token {
        TokenModel::Identifier(name) => clean(name),
        TokenModel::Number(digits) => clean(digits),
        TokenModel::StringLiteral(content) => one_line(content),
        _ => true,
    }
}

/// Whether every token of the stream is tame.
pub open spec fn all_tame(tokens: Seq<TokenModel>) -> bool {
    forall|i: int| 0 <= i < tokens.len() ==> tame(#[trigger] tokens[i])
}

/// Whether no label is defined twice in the text written so far, none
/// that is yet to be numbered is defined at all, and none whose loop or
/// conditional is open still has its end defined. The open loops are all
/// different, and so are the open conditionals.
pub open spec fn defined_once(s: GenState) -> bool {
    &&& forall|kind: LabelKind, id: nat|
        lines_with(s.output, #[trigger] definition(kind, id)) <= 1 && (id >= s.counter
            ==> lines_with(s.output, definition(kind, id)) == 0)
    &&& forall|id: nat| #[trigger]
        s.loops.contains(id) ==> id < s.counter && lines_with(
            s.output,
            definition(LabelKind::LoopEnd, id),
        ) == 0
    &&& forall|id: nat| #[trigger]
        s.ifs.contains(id) ==> id < s.counter && lines_with(
            s.output,
            definition(LabelKind::IfEnd, id),
        ) == 0
    &&& forall|i: int, j: int|
        0 <= i < j < s.loops.len() ==> #[trigger] s.loops[i] != #[trigger] s.loops[j]
    &&& forall|i: int, j: int|
        0 <= i < j < s.ifs.len() ==> #[trigger] s.ifs[i] != #[trigger] s.ifs[j]
}

/// Whether `kind` is one of the two families of labels that a loop has.
pub open spec fn of_a_loop(kind: LabelKind) -> bool {
    kind == LabelKind::LoopStart || kind == LabelKind::LoopEnd
}

/// Whether every number was given to one construct only: two labels with
/// the same number are the start and the end of one loop. Every label that
/// the text defines was made up before, and so were the end labels of the
/// loops and conditionals that are open.
pub open spec fn numbered_once(s: GenState) -> bool {
    &&& forall|i: int| 0 <= i < s.labels.len() ==> (#[trigger] s.labels[i]).1 < s.counter
    &&& forall|i: int, j: int|
        0 <= i < j < s.labels.len() && (#[trigger] s.labels[i]).1 == (#[trigger] s.labels[j]).1
            ==> of_a_loop(s.labels[i].0) && of_a_loop(s.labels[j].0)
    &&& forall|kind: LabelKind, id: nat|
        lines_with(s.output, #[trigger] definition(kind, id)) >= 1 ==> s.labels.contains(
            (kind, id),
        )
    &&& forall|id: nat| #[trigger]
        s.loops.contains(id) ==> s.labels.contains((LabelKind::LoopEnd, id))
    &&& forall|id: nat| #[trigger] s.ifs.contains(id) ==> s.labels.contains((LabelKind::IfEnd, id))
    &&& forall|id: nat| #[trigger]
        s.labels.contains((LabelKind::LoopEnd, id)) ==> lines_with(
            s.output,
            definition(LabelKind::LoopStart, id),
        ) >= 1
    &&& forall|id: nat| #[trigger]
        s.labels.contains((LabelKind::IfEnd, id)) ==> lines_with(s.output, branch_to(id)) >= 1
}

/// Whether the text written so far is made of whole lines, holds as many
/// lines of each counted kind as the state has counted, defines no label
/// twice and gives no number to two constructs.
pub open spec fn tallied(s: GenState) -> bool {
    &&& settled(s.output)
    &&& lines_with(s.output, loop_start_mark()) == s.loops_opened
    &&& lines_with(s.output, loop_end_mark()) == s.loops_closed
    &&& lines_with(s.output, if_end_mark()) == s.ifs_closed
    &&& lines_with(s.output, branch_mark()) == s.ifs_opened
    &&& defined_once(s)
    &&& numbered_once(s)
}

/// Whether `t` has counted what `s` has, has the same loops and
/// conditionals open, and its text has the lines of each counted kind that
/// the text of `s` has.
pub open spec fn carried(s: GenState, t: GenState) -> bool {
    &&& same_tally(s.output, t.output)
    &&& t.loops_opened == s.loops_opened
    &&& t.loops_closed == s.loops_closed
    &&& t.ifs_opened == s.ifs_opened
    &&& t.ifs_closed == s.ifs_closed
    &&& t.counter == s.counter
    &&& t.loops == s.loops
    &&& t.ifs == s.ifs
    &&& t.labels == s.labels
}

proof fn lemma_carried(s: GenState, t: GenState)
    requires
        tallied(s),
        carried(s, t),
    ensures
        tallied(t),
{
    assert(counted(loop_start_mark()) && counted(loop_end_mark()) && counted(if_end_mark())
        && counted(branch_mark()));
    assert forall|kind: LabelKind, id: nat|
        lines_with(t.output, #[trigger] definition(kind, id)) == lines_with(
            s.output,
            definition(kind, id),
        ) by {
        assert(counted(definition(kind, id)));
    }
    assert forall|id: nat|
        lines_with(t.output, #[trigger] branch_to(id)) == lines_with(s.output, branch_to(id)) by {
        assert(counted(branch_to(id)));
    }
}

proof fn lemma_push_contains<T>(s: Seq<T>, x: T, y: T)
    ensures
        s.push(x).contains(x),
        s.contains(y) ==> s.push(x).contains(y),
        s.push(x).contains(y) ==> s.contains(y) || y == x,
{
    assert(s.push(x)[s.len() as int] == x);
    if s.contains(y) {
        let i = choose|i: int| 0 <= i < s.len() && s[i] == y;
        assert(s.push(x)[i] == y);
    }
    if s.push(x).contains(y) {
        let i = choose|i: int| 0 <= i < s.push(x).len() && s.push(x)[i] == y;
        if i < s.len() {
            assert(s[i] == y);
        }
    }
}

/// The numbering holds on where no label is made up, the loops and
/// conditionals that are open were open before, and every label that the
/// text defines was defined or made up before.
proof fn lemma_numbered_kept(s: GenState, t: GenState)
    requires
        numbered_once(s),
        t.labels == s.labels,
        t.counter == s.counter,
        forall|id: nat| #[trigger] t.loops.contains(id) ==> s.loops.contains(id),
        forall|id: nat| #[trigger] t.ifs.contains(id) ==> s.ifs.contains(id),
        forall|kind: LabelKind, id: nat|
            lines_with(t.output, #[trigger] definition(kind, id)) >= 1 ==> lines_with(
                s.output,
                definition(kind, id),
            ) >= 1 || s.labels.contains((kind, id)),
        forall|kind: LabelKind, id: nat|
            lines_with(t.output, #[trigger] definition(kind, id)) >= lines_with(
                s.output,
                definition(kind, id),
            ),
        forall|id: nat|
            lines_with(t.output, #[trigger] branch_to(id)) >= lines_with(s.output, branch_to(id)),
    ensures
        numbered_once(t),
{
    assert forall|id: nat| #[trigger] t.labels.contains((LabelKind::LoopEnd, id)) implies lines_with(
        t.output,
        definition(LabelKind::LoopStart, id),
    ) >= 1 by {
        assert(lines_with(s.output, definition(LabelKind::LoopStart, id)) >= 1);
    }
    assert forall|id: nat| #[trigger] t.labels.contains((LabelKind::IfEnd, id)) implies lines_with(
        t.output,
        branch_to(id),
    ) >= 1 by {
        assert(lines_with(s.output, branch_to(id)) >= 1);
    }
}

/// The numbering holds on where one construct takes the next number and
/// its labels are made up.
proof fn lemma_numbered_made(s: GenState, t: GenState, first: LabelKind)
    requires
        numbered_once(s),
        first != LabelKind::LoopEnd,
        t.counter == s.counter + 1,
        t.labels == s.labels.push((first, s.counter)) || (first == LabelKind::LoopStart
            && t.labels == s.labels.push((first, s.counter)).push(
            (LabelKind::LoopEnd, s.counter),
        )),
        forall|id: nat| #[trigger]
            t.loops.contains(id) ==> s.loops.contains(id) || (id == s.counter && t.labels.contains(
                (LabelKind::LoopEnd, id),
            )),
        forall|id: nat| #[trigger]
            t.ifs.contains(id) ==> s.ifs.contains(id) || (id == s.counter && t.labels.contains(
                (LabelKind::IfEnd, id),
            )),
        forall|kind: LabelKind, id: nat|
            lines_with(t.output, #[trigger] definition(kind, id)) >= 1 ==> lines_with(
                s.output,
                definition(kind, id),
            ) >= 1 || (kind == first && id == s.counter),
        forall|kind: LabelKind, id: nat|
            lines_with(t.output, #[trigger] definition(kind, id)) >= lines_with(
                s.output,
                definition(kind, id),
            ),
        first == LabelKind::LoopStart ==> lines_with(
            t.output,
            definition(LabelKind::LoopStart, s.counter),
        ) >= 1,
        forall|id: nat|
            lines_with(t.output, #[trigger] branch_to(id)) >= lines_with(s.output, branch_to(id)),
        first == LabelKind::IfEnd ==> lines_with(t.output, branch_to(s.counter)) >= 1,
    ensures
        numbered_once(t),
{
    assert forall|id: nat| #[trigger] t.labels.contains((LabelKind::IfEnd, id)) implies lines_with(
        t.output,
        branch_to(id),
    ) >= 1 by {
        lemma_push_contains(s.labels, (first, s.counter), (LabelKind::IfEnd, id));
        lemma_push_contains(
            s.labels.push((first, s.counter)),
            (LabelKind::LoopEnd, s.counter),
            (LabelKind::IfEnd, id),
        );
        if s.labels.contains((LabelKind::IfEnd, id)) {
            assert(lines_with(s.output, branch_to(id)) >= 1);
            assert(lines_with(t.output, branch_to(id)) >= lines_with(s.output, branch_to(id)));
        } else {
            assert(id == s.counter && first == LabelKind::IfEnd);
        }
    }
    assert forall|id: nat| #[trigger] t.labels.contains((LabelKind::LoopEnd, id)) implies lines_with(
        t.output,
        definition(LabelKind::LoopStart, id),
    ) >= 1 by {
        lemma_push_contains(s.labels, (first, s.counter), (LabelKind::LoopEnd, id));
        lemma_push_contains(
            s.labels.push((first, s.counter)),
            (LabelKind::LoopEnd, s.counter),
            (LabelKind::LoopEnd, id),
        );
        if s.labels.contains((LabelKind::LoopEnd, id)) {
            assert(lines_with(s.output, definition(LabelKind::LoopStart, id)) >= 1);
            assert(lines_with(t.output, definition(LabelKind::LoopStart, id)) >= lines_with(
                s.output,
                definition(LabelKind::LoopStart, id),
            ));
        } else {
            assert(id == s.counter && first == LabelKind::LoopStart);
        }
    }
    let c = s.counter;
    let one = s.labels.push((first, c));
    lemma_push_contains(s.labels, (first, c), (first, c));
    lemma_push_contains(one, (LabelKind::LoopEnd, c), (first, c));
    assert(t.labels.contains((first, c)));
    assert forall|x: (LabelKind, nat)| s.labels.contains(x) implies t.labels.contains(x) by {
        lemma_push_contains(s.labels, (first, c), x);
        lemma_push_contains(one, (LabelKind::LoopEnd, c), x);
    }
    assert forall|i: int| 0 <= i < t.labels.len() implies (#[trigger] t.labels[i]).1
        < t.counter by {
        if i < s.labels.len() {
            assert(t.labels[i] == s.labels[i]);
        }
    }
    assert forall|i: int, j: int|
        0 <= i < j < t.labels.len() && (#[trigger] t.labels[i]).1 == (#[trigger] t.labels[j]).1
        implies of_a_loop(t.labels[i].0) && of_a_loop(t.labels[j].0) by {
        if i < s.labels.len() {
            assert(t.labels[i] == s.labels[i]);
        }
        if j < s.labels.len() {
            assert(t.labels[j] == s.labels[j]);
        }
    }
    assert forall|kind: LabelKind, id: nat|
        lines_with(t.output, #[trigger] definition(kind, id)) >= 1 implies t.labels.contains(
        (kind, id),
    ) by {
        if lines_with(s.output, definition(kind, id)) >= 1 {
            assert(s.labels.contains((kind, id)));
        }
    }
    assert forall|id: nat| #[trigger] t.loops.contains(id) implies t.labels.contains(
        (LabelKind::LoopEnd, id),
    ) by {
        if s.loops.contains(id) {
            assert(s.labels.contains((LabelKind::LoopEnd, id)));
        }
    }
    assert forall|id: nat| #[trigger] t.ifs.contains(id) implies t.labels.contains(
        (LabelKind::IfEnd, id),
    ) by {
        if s.ifs.contains(id) {
            assert(s.labels.contains((LabelKind::IfEnd, id)));
        }
    }
}

proof fn lemma_loop_opened(s: GenState, t: GenState)
    requires
        tallied(s),
        settled(t.output),
        defines(s.output, t.output, LabelKind::LoopStart, s.counter),
        t.counter == s.counter + 1,
        t.loops == s.loops.push(s.counter),
        t.ifs == s.ifs,
    ensures
        defined_once(t),
{
    let c = s.counter;
    assert forall|id: nat| #[trigger] t.loops.contains(id) implies id < t.counter && lines_with(
        t.output,
        definition(LabelKind::LoopEnd, id),
    ) == 0 by {
        let i = choose|i: int| 0 <= i < t.loops.len() && t.loops[i] == id;
        if i < s.loops.len() {
            assert(s.loops[i] == id);
            assert(s.loops.contains(id));
        }
    }
    assert forall|i: int, j: int| 0 <= i < j < t.loops.len() implies #[trigger] t.loops[i]
        != #[trigger] t.loops[j] by {
        assert(t.loops[i] == s.loops[i]);
        assert(s.loops.contains(s.loops[i]));
        if j < s.loops.len() {
            assert(t.loops[j] == s.loops[j]);
        }
    }
}

proof fn lemma_conditional_opened(s: GenState, t: GenState)
    requires
        tallied(s),
        settled(t.output),
        defines_nothing(s.output, t.output),
        t.counter == s.counter + 1,
        t.loops == s.loops,
        t.ifs == s.ifs.push(s.counter),
    ensures
        defined_once(t),
{
    assert forall|id: nat| #[trigger] t.ifs.contains(id) implies id < t.counter && lines_with(
        t.output,
        definition(LabelKind::IfEnd, id),
    ) == 0 by {
        let i = choose|i: int| 0 <= i < t.ifs.len() && t.ifs[i] == id;
        if i < s.ifs.len() {
            assert(s.ifs[i] == id);
            assert(s.ifs.contains(id));
        }
    }
    assert forall|i: int, j: int| 0 <= i < j < t.ifs.len() implies #[trigger] t.ifs[i]
        != #[trigger] t.ifs[j] by {
        assert(t.ifs[i] == s.ifs[i]);
        assert(s.ifs.contains(s.ifs[i]));
        if j < s.ifs.len() {
            assert(t.ifs[j] == s.ifs[j]);
        }
    }
}

proof fn lemma_loop_closed(s: GenState, t: GenState)
    requires
        tallied(s),
        s.loops.len() > 0,
        settled(t.output),
        defines(s.output, t.output, LabelKind::LoopEnd, s.loops.last()),
        t.counter == s.counter,
        t.loops == s.loops.drop_last(),
        t.ifs == s.ifs,
    ensures
        defined_once(t),
{
    let last = s.loops.last();
    assert(s.loops.contains(last));
    assert forall|id: nat| #[trigger] t.loops.contains(id) implies id < t.counter && lines_with(
        t.output,
        definition(LabelKind::LoopEnd, id),
    ) == 0 by {
        let i = choose|i: int| 0 <= i < t.loops.len() && t.loops[i] == id;
        assert(s.loops[i] == id);
        assert(s.loops.contains(id));
        assert(s.loops[i] != s.loops[s.loops.len() - 1]);
    }
    assert forall|i: int, j: int| 0 <= i < j < t.loops.len() implies #[trigger] t.loops[i]
        != #[trigger] t.loops[j] by {
        assert(t.loops[i] == s.loops[i]);
        assert(t.loops[j] == s.loops[j]);
    }
}

proof fn lemma_conditional_closed(s: GenState, t: GenState)
    requires
        tallied(s),
        s.ifs.len() > 0,
        settled(t.output),
        defines(s.output, t.output, LabelKind::IfEnd, s.ifs.last()) || defines_nothing(
            s.output,
            t.output,
        ),
        t.counter == s.counter,
        t.loops == s.loops,
        t.ifs == s.ifs.drop_last(),
    ensures
        defined_once(t),
{
    let last = s.ifs.last();
    assert(s.ifs.contains(last));
    assert forall|id: nat| #[trigger] t.ifs.contains(id) implies id < t.counter && lines_with(
        t.output,
        definition(LabelKind::IfEnd, id),
    ) == 0 by {
        let i = choose|i: int| 0 <= i < t.ifs.len() && t.ifs[i] == id;
        assert(s.ifs[i] == id);
        assert(s.ifs.contains(id));
        assert(s.ifs[i] != s.ifs[s.ifs.len() - 1]);
    }
    assert forall|i: int, j: int| 0 <= i < j < t.ifs.len() implies #[trigger] t.ifs[i]
        != #[trigger] t.ifs[j] by {
        assert(t.ifs[i] == s.ifs[i]);
        assert(t.ifs[j] == s.ifs[j]);
    }
}

proof fn lemma_carried_chain(s: GenState, t: GenState, u: GenState)
    requires
        carried(s, t),
        carried(t, u),
    ensures
        carried(s, u),
{
    lemma_same_tally_chain(s.output, t.output, u.output);
}

proof fn lemma_registers()
    ensures
        clean("rax"@),
        clean("rbx"@),
{
    reveal_strlit("rax");
    reveal_strlit("rbx");
}

proof fn lemma_load_operand(s: GenState, operand: TokenModel, reg: Seq<char>)
    requires
        settled(s.output),
        tame(operand),
        clean(reg),
    ensures
        carried(s, load_operand(s, operand, reg)),
{
    match operand {
        TokenModel::Identifier(name) => {
            if s.frame.contains_key(name) {
                lemma_load_slot(s.output, reg, s.frame[name]);
            } else {
                lemma_same_tally_self(s.output);
            }
        },
        TokenModel::Number(digits) => {
            lemma_load_immediate(s.output, reg, digits);
        },
        _ => {
            lemma_same_tally_self(s.output);
        },
    }
}

proof fn lemma_bind_parameters_carried(
    s: GenState,
    tokens: Seq<TokenModel>,
    from: int,
    to: int,
    word: int,
)
    requires
        settled(s.output),
        all_tame(tokens),
    ensures
        carried(s, bind_parameters(s, tokens, from, to, word)),
    decreases to - from,
{
    if from < to {
        lemma_bind_parameters_carried(s, tokens, from, to - 1, word);
        let before = bind_parameters(s, tokens, from, to - 1, word);
        match identifier_at(tokens, to - 1) {
            Some(name) => {
                assert(tame(tokens[to - 1]));
                let bound = bind(before, name, word);
                lemma_parameter_note(before.output, name, bound.frame[name]);
                lemma_carried_chain(s, before, bind_parameter(before, name, word));
            },
            None => {},
        }
    } else {
        lemma_same_tally_self(s.output);
    }
}

proof fn lemma_verbatim_clean(tokens: Seq<TokenModel>, from: int, to: int)
    requires
        all_tame(tokens),
    ensures
        clean(verbatim_text(tokens, from, to)),
    decreases to - from,
{
    if !(from >= to || to > tokens.len() || from < 0) {
        lemma_verbatim_clean(tokens, from, to - 1);
        reveal_strlit(" ");
        assert(tame(tokens[to - 1]));
        match tokens[to - 1] {
            TokenModel::Identifier(word) => {
                lemma_clean_join(word, " "@);
            },
            TokenModel::Number(word) => {
                lemma_clean_join(word, " "@);
            },
            _ => {},
        }
        lemma_clean_join(verbatim_text(tokens, from, to - 1), verbatim_piece(tokens[to - 1]));
    }
}

proof fn lemma_ret(tokens: Seq<TokenModel>, s: GenState)
    requires
        tallied(s),
        all_tame(tokens),
        0 <= s.cursor < tokens.len(),
    ensures
        tallied(step_ret(tokens, s)),
{
    lemma_registers();
    let loaded = match token_at(tokens, s.cursor + 1) {
        Some(operand) => load_operand(s, operand, "rax"@),
        None => s,
    };
    match token_at(tokens, s.cursor + 1) {
        Some(operand) => {
            assert(tame(tokens[s.cursor + 1]));
            lemma_load_operand(s, operand, "rax"@);
        },
        None => {
            lemma_same_tally_self(s.output);
        },
    }
    lemma_epilogue(loaded.output);
    lemma_carried_chain(s, loaded, emit(loaded, epilogue()));
    lemma_carried(s, emit(loaded, epilogue()));
}

proof fn lemma_mem(tokens: Seq<TokenModel>, word: int, s: GenState)
    requires
        tallied(s),
        all_tame(tokens),
        0 <= s.cursor < tokens.len(),
    ensures
        tallied(step_mem(tokens, word, s)),
{
    lemma_registers();
    match identifier_at(tokens, s.cursor + 1) {
        Some(name) => {
            let bound = bind(s, name, word);
            match number_at(tokens, s.cursor + 2) {
                Some(digits) => {
                    assert(tame(tokens[s.cursor + 2]));
                    let a = load_immediate("rax"@, digits);
                    let b = store_slot(bound.frame[name]);
                    lemma_load_immediate(s.output, "rax"@, digits);
                    lemma_store_slot(s.output + a, bound.frame[name]);
                    lemma_same_tally_chain(s.output, s.output + a, s.output + a + b);
                    assert(s.output + (a + b) =~= s.output + a + b);
                    lemma_carried(s, emit(bound, a + b));
                },
                None => {},
            }
        },
        None => {},
    }
}

proof fn lemma_ref(tokens: Seq<TokenModel>, s: GenState)
    requires
        tallied(s),
        all_tame(tokens),
        0 <= s.cursor < tokens.len(),
    ensures
        tallied(step_ref(tokens, s)),
{
    lemma_registers();
    match identifier_at(tokens, s.cursor + 1) {
        Some(name) => {
            assert(tame(tokens[s.cursor + 1]));
            lemma_load_operand(s, TokenModel::Identifier(name), "rax"@);
            lemma_carried(s, load_operand(s, TokenModel::Identifier(name), "rax"@));
        },
        None => {},
    }
}

proof fn lemma_loop(tokens: Seq<TokenModel>, s: GenState)
    requires
        tallied(s),
        0 <= s.cursor < tokens.len(),
    ensures
        tallied(step_loop(tokens, s)),
{
    lemma_label_line(s.output, LabelKind::LoopStart, s.counter);
    let t = step_loop(tokens, s);
    lemma_loop_opened(s, t);
    lemma_push_contains(s.loops, s.counter, s.counter);
    lemma_push_contains(
        s.labels.push((LabelKind::LoopStart, s.counter)),
        (LabelKind::LoopEnd, s.counter),
        (LabelKind::LoopEnd, s.counter),
    );
    assert forall|id: nat| #[trigger] t.loops.contains(id) implies s.loops.contains(id) || (id
        == s.counter && t.labels.contains((LabelKind::LoopEnd, id))) by {
        lemma_push_contains(s.loops, s.counter, id);
    }
    lemma_numbered_made(s, t, LabelKind::LoopStart);
}

proof fn lemma_brk(tokens: Seq<TokenModel>, s: GenState)
    requires
        tallied(s),
        0 <= s.cursor < tokens.len(),
    ensures
        tallied(step_brk(tokens, s)),
{
    if s.loops.len() > 0 {
        lemma_jump_to_label(s.output, LabelKind::LoopEnd, s.loops.last());
        lemma_carried(s, emit(s, jump_to(label_text(LabelKind::LoopEnd, s.loops.last()))));
    }
}

proof fn lemma_jump(tokens: Seq<TokenModel>, s: GenState)
    requires
        tallied(s),
        all_tame(tokens),
        0 <= s.cursor < tokens.len(),
    ensures
        tallied(step_jump(tokens, s)),
{
    match identifier_at(tokens, s.cursor + 1) {
        Some(label) => {
            assert(tame(tokens[s.cursor + 1]));
            lemma_jump_line(s.output, label);
            lemma_carried(s, emit(s, jump_to(label)));
        },
        None => {},
    }
}

proof fn lemma_imp(tokens: Seq<TokenModel>, s: GenState)
    requires
        tallied(s),
        all_tame(tokens),
        0 <= s.cursor < tokens.len(),
    ensures
        tallied(step_imp(tokens, s)),
{
    match identifier_at(tokens, s.cursor + 1) {
        Some(path) => {
            assert(tame(tokens[s.cursor + 1]));
            lemma_import_note(s.output, path);
            lemma_carried(s, emit(s, import_note(path)));
        },
        None => {},
    }
}

proof fn lemma_verbatim(tokens: Seq<TokenModel>, s: GenState)
    requires
        tallied(s),
        all_tame(tokens),
        0 <= s.cursor < tokens.len(),
    ensures
        tallied(step_verbatim(tokens, s)),
{
    reveal_strlit("\n");
    let end = semicolon_from(tokens, s.cursor + 1);
    let words = verbatim_text(tokens, s.cursor + 1, end);
    lemma_verbatim_clean(tokens, s.cursor + 1, end);
    lemma_plain_line(s.output, words);
    assert(words + "\n"@ =~= words.push('\n'));
    lemma_carried(s, emit(s, words + "\n"@));
}

proof fn lemma_plain(tokens: Seq<TokenModel>, word: int, s: GenState, name: Seq<char>)
    requires
        tallied(s),
        all_tame(tokens),
        0 <= s.cursor < tokens.len(),
        tokens[s.cursor] == TokenModel::Identifier(name),
    ensures
        tallied(step_plain(tokens, word, s, name)),
{
    let end = identifiers_end(tokens, s.cursor + 1);
    if token_at(tokens, end) == Some(TokenModel::BraceOpen) {
        assert(tame(tokens[s.cursor]));
        let entered = enter_function(s, name);
        lemma_prologue(s.output, name);
        lemma_bind_parameters_carried(entered, tokens, s.cursor + 1, end, word);
        let bound = bind_parameters(entered, tokens, s.cursor + 1, end, word);
        lemma_carried_chain(s, entered, bound);
        lemma_carried(s, bound);
    }
}

proof fn lemma_binary(tokens: Seq<TokenModel>, s: GenState, op: Operator)
    requires
        tallied(s),
        all_tame(tokens),
        0 <= s.cursor < tokens.len(),
    ensures
        tallied(step_binary(tokens, s, op)),
{
    lemma_registers();
    if s.cursor > 0 && s.cursor + 1 < tokens.len() {
        let left = tokens[s.cursor - 1];
        let right = tokens[s.cursor + 1];
        assert(tame(left) && tame(right));
        let first = load_operand(s, left, "rax"@);
        let loaded = load_operand(first, right, "rbx"@);
        let computed = emit(loaded, instruction(op));
        lemma_load_operand(s, left, "rax"@);
        lemma_load_operand(first, right, "rbx"@);
        lemma_instruction(loaded.output, op);
        lemma_carried_chain(s, first, loaded);
        lemma_carried_chain(s, loaded, computed);
        lemma_carried(s, computed);
        match slot_of(s, left) {
            Some(offset) => {
                lemma_store_slot(computed.output, offset);
                lemma_carried_chain(s, computed, emit(computed, store_slot(offset)));
                lemma_carried(s, emit(computed, store_slot(offset)));
            },
            None => {},
        }
    }
}

proof fn lemma_then(tokens: Seq<TokenModel>, s: GenState)
    requires
        tallied(s),
        0 <= s.cursor < tokens.len(),
    ensures
        tallied(step_then(tokens, s)),
{
    lemma_jump_if_zero(s.output, s.counter);
    let t = step_then(tokens, s);
    lemma_conditional_opened(s, t);
    lemma_push_contains(s.labels, (LabelKind::IfEnd, s.counter), (LabelKind::IfEnd, s.counter));
    assert forall|id: nat| #[trigger] t.ifs.contains(id) implies s.ifs.contains(id) || (id
        == s.counter && t.labels.contains((LabelKind::IfEnd, id))) by {
        lemma_push_contains(s.ifs, s.counter, id);
    }
    lemma_numbered_made(s, t, LabelKind::IfEnd);
}

proof fn lemma_otherwise(tokens: Seq<TokenModel>, s: GenState)
    requires
        tallied(s),
        0 <= s.cursor < tokens.len(),
    ensures
        tallied(step_otherwise(tokens, s)),
{
    if s.ifs.len() > 0 {
        lemma_jump_to_label(s.output, LabelKind::IfEnd, s.ifs.last());
        let jumped = emit(s, jump_to(label_text(LabelKind::IfEnd, s.ifs.last())));
        lemma_carried(s, jumped);
        assert forall|kind: LabelKind, id: nat|
            lines_with(jumped.output, #[trigger] definition(kind, id)) == lines_with(
                s.output,
                definition(kind, id),
            ) by {
            assert(counted(definition(kind, id)));
        }
        assert forall|id: nat|
            lines_with(jumped.output, #[trigger] branch_to(id)) == lines_with(
                s.output,
                branch_to(id),
            ) by {
            assert(counted(branch_to(id)));
        }
        lemma_conditional_closed(s, step_otherwise(tokens, s));
        lemma_drop_last_contains(s.ifs);
        lemma_numbered_kept(s, step_otherwise(tokens, s));
    }
}

proof fn lemma_drop_last_contains(s: Seq<nat>)
    requires
        s.len() > 0,
    ensures
        forall|x: nat| #[trigger] s.drop_last().contains(x) ==> s.contains(x),
        s.contains(s.last()),
{
    assert forall|x: nat| #[trigger] s.drop_last().contains(x) implies s.contains(x) by {
        let i = choose|i: int| 0 <= i < s.drop_last().len() && s.drop_last()[i] == x;
        assert(s[i] == x);
    }
    assert(s[s.len() - 1] == s.last());
}

proof fn lemma_close_loop(s: GenState)
    requires
        tallied(s),
    ensures
        tallied(close_loop(s)),
{
    if s.loops.len() > 0 {
        lemma_label_line(s.output, LabelKind::LoopEnd, s.loops.last());
        lemma_loop_closed(s, close_loop(s));
        lemma_drop_last_contains(s.loops);
        lemma_numbered_kept(s, close_loop(s));
    }
}

proof fn lemma_close_if(s: GenState)
    requires
        tallied(s),
    ensures
        tallied(close_if(s)),
{
    if s.ifs.len() > 0 {
        lemma_label_line(s.output, LabelKind::IfEnd, s.ifs.last());
        lemma_conditional_closed(s, close_if(s));
        lemma_drop_last_contains(s.ifs);
        lemma_numbered_kept(s, close_if(s));
    }
}

proof fn lemma_close(tokens: Seq<TokenModel>, s: GenState)
    requires
        tallied(s),
        0 <= s.cursor < tokens.len(),
    ensures
        tallied(step_close(tokens, s)),
{
    lemma_close_loop(s);
    lemma_close_if(close_loop(s));
}

proof fn lemma_number(tokens: Seq<TokenModel>, s: GenState, digits: Seq<char>)
    requires
        tallied(s),
        clean(digits),
        0 <= s.cursor < tokens.len(),
    ensures
        tallied(step_number(tokens, s, digits)),
{
    lemma_registers();
    lemma_load_immediate(s.output, "rax"@, digits);
    lemma_carried(s, emit(s, load_immediate("rax"@, digits)));
}

proof fn lemma_string(tokens: Seq<TokenModel>, s: GenState, content: Seq<char>)
    requires
        tallied(s),
        one_line(content),
        0 <= s.cursor < tokens.len(),
    ensures
        tallied(step_string(tokens, s, content)),
{
    lemma_string_data(s.output, s.counter, content);
    lemma_numbered_made(s, step_string(tokens, s, content), LabelKind::Text);
}

/// A step keeps the text and the counts of the state in line.
pub proof fn lemma_step_keeps_tallied(tokens: Seq<TokenModel>, word: int, s: GenState)
    requires
        tallied(s),
        all_tame(tokens),
        0 <= s.cursor < tokens.len(),
    ensures
        tallied(step(tokens, word, s)),
{
    assert(tame(tokens[s.cursor]));
    match tokens[s.cursor] {
        TokenModel::Identifier(name) => {
            match keyword_of(name) {
                Keyword::Ret => lemma_ret(tokens, s),
                Keyword::Mem => lemma_mem(tokens, word, s),
                Keyword::Ref => lemma_ref(tokens, s),
                Keyword::Loop => lemma_loop(tokens, s),
                Keyword::Brk => lemma_brk(tokens, s),
                Keyword::Jump => lemma_jump(tokens, s),
                Keyword::Imp => lemma_imp(tokens, s),
                Keyword::Verbatim => lemma_verbatim(tokens, s),
                Keyword::Plain => lemma_plain(tokens, word, s, name),
            }
        },
        TokenModel::Operation(text) => {
            let op = operator_of(text);
            lemma_binary(tokens, s, op);
            lemma_then(tokens, s);
            lemma_otherwise(tokens, s);
        },
        TokenModel::BraceClose => lemma_close(tokens, s),
        TokenModel::Number(digits) => lemma_number(tokens, s, digits),
        TokenModel::StringLiteral(content) => lemma_string(tokens, s, content),
        _ => {},
    }
}

proof fn lemma_state_after_tallied(tokens: Seq<TokenModel>, double: bool, n: nat)
    requires
        all_tame(tokens),
    ensures
        tallied(state_after(tokens, double, n)),
    decreases n,
{
    if n > 0 {
        lemma_state_after_tallied(tokens, double, (n - 1) as nat);
        let before = state_after(tokens, double, (n - 1) as nat);
        if 0 <= before.cursor < tokens.len() {
            lemma_step_keeps_tallied(tokens, word_size(double), before);
        }
    } else {
        assert forall|kind: LabelKind, id: nat|
            lines_with(initial().output, #[trigger] definition(kind, id)) == 0 by {}
        assert(lines_with(initial().output, loop_start_mark()) == 0);
        assert(lines_with(initial().output, loop_end_mark()) == 0);
        assert(lines_with(initial().output, if_end_mark()) == 0);
        assert(lines_with(initial().output, branch_mark()) == 0);
    }
}

/// In the text written for tame tokens, at every point of the walk and at
/// its end, the lines that define the end of a loop are no more than the
/// lines that define the start of one, and the lines that define the end
/// of a conditional are no more than the lines that jump to one where the
/// primary register holds zero.
pub proof fn ends_never_outnumber_opens_in_text(tokens: Seq<TokenModel>, double: bool, n: nat)
    requires
        all_tame(tokens),
    ensures
        lines_with(state_after(tokens, double, n).output, loop_end_mark()) <= lines_with(
            state_after(tokens, double, n).output,
            loop_start_mark(),
        ),
        lines_with(state_after(tokens, double, n).output, if_end_mark()) <= lines_with(
            state_after(tokens, double, n).output,
            branch_mark(),
        ),
        lines_with(assembly(tokens, double), loop_end_mark()) <= lines_with(
            assembly(tokens, double),
            loop_start_mark(),
        ),
        lines_with(assembly(tokens, double), if_end_mark()) <= lines_with(
            assembly(tokens, double),
            branch_mark(),
        ),
{
    lemma_state_after_tallied(tokens, double, n);
    lemma_state_after_sound(tokens, double, n);
    lemma_state_after_tallied(tokens, double, tokens.len());
    lemma_state_after_sound(tokens, double, tokens.len());
    lemma_run_ends(tokens, double);
}

proof fn lemma_lines_upto_grow(t: Seq<char>, w: Seq<char>, a: int, b: int)
    requires
        a <= b,
    ensures
        lines_with_upto(t, w, a) <= lines_with_upto(t, w, b),
    decreases b - a,
{
    if a < b {
        lemma_lines_upto_grow(t, w, a, b - 1);
    }
}

/// Two lines that begin with `w` count as two.
pub proof fn lemma_two_lines(t: Seq<char>, w: Seq<char>, p: int, q: int)
    requires
        starts_line(t, p),
        begins_with(t, p, w),
        starts_line(t, q),
        begins_with(t, q, w),
        p < q,
    ensures
        lines_with(t, w) >= 2,
{
    lemma_lines_upto_grow(t, w, 0, p);
    assert(lines_with_upto(t, w, p + 1) == lines_with_upto(t, w, p) + 1);
    lemma_lines_upto_grow(t, w, p + 1, q);
    assert(lines_with_upto(t, w, q + 1) == lines_with_upto(t, w, q) + 1);
    lemma_lines_upto_grow(t, w, q + 1, t.len() as int);
}

/// In the text written for tame tokens, the lines that define labels
/// define different labels: where two lines begin with the same label and
/// its colon, they are one line.
pub proof fn label_definitions_are_distinct(
    tokens: Seq<TokenModel>,
    double: bool,
    kind: LabelKind,
    id: nat,
    p: int,
    q: int,
)
    requires
        all_tame(tokens),
        starts_line(assembly(tokens, double), p),
        begins_with(assembly(tokens, double), p, definition(kind, id)),
        starts_line(assembly(tokens, double), q),
        begins_with(assembly(tokens, double), q, definition(kind, id)),
    ensures
        p == q,
{
    no_label_is_defined_twice(tokens, double, 0, kind, id);
    if p < q {
        lemma_two_lines(assembly(tokens, double), definition(kind, id), p, q);
    }
    if q < p {
        lemma_two_lines(assembly(tokens, double), definition(kind, id), q, p);
    }
}

/// In the text written for tame tokens, at every point of the walk and at
/// its end, the end of a loop is defined only where its start is.
pub proof fn loop_end_has_its_start(tokens: Seq<TokenModel>, double: bool, n: nat, id: nat)
    requires
        all_tame(tokens),
        lines_with(state_after(tokens, double, n).output, definition(LabelKind::LoopEnd, id))
            >= 1,
    ensures
        lines_with(state_after(tokens, double, n).output, definition(LabelKind::LoopStart, id))
            >= 1,
{
    lemma_state_after_tallied(tokens, double, n);
}

/// In the text written for tame tokens, at every point of the walk and at
/// its end, the end of a conditional is defined only where the line that
/// opens it stands.
pub proof fn if_end_has_its_branch(tokens: Seq<TokenModel>, double: bool, n: nat, id: nat)
    requires
        all_tame(tokens),
        lines_with(state_after(tokens, double, n).output, definition(LabelKind::IfEnd, id)) >= 1,
    ensures
        lines_with(state_after(tokens, double, n).output, branch_to(id)) >= 1,
{
    lemma_state_after_tallied(tokens, double, n);
    let s = state_after(tokens, double, n);
    assert(s.labels.contains((LabelKind::IfEnd, id)));
}

/// In the text written for tame tokens, at every point of the walk and at
/// its end, no number serves two constructs: where the labels of two
/// families are defined with the same number, they are the start and the
/// end of one loop.
pub proof fn no_number_serves_two_constructs(
    tokens: Seq<TokenModel>,
    double: bool,
    n: nat,
    first: LabelKind,
    second: LabelKind,
    id: nat,
)
    requires
        all_tame(tokens),
        first != second,
        lines_with(state_after(tokens, double, n).output, definition(first, id)) >= 1,
        lines_with(state_after(tokens, double, n).output, definition(second, id)) >= 1,
    ensures
        of_a_loop(first) && of_a_loop(second),
{
    lemma_state_after_tallied(tokens, double, n);
    let s = state_after(tokens, double, n);
    assert(s.labels.contains((first, id)));
    assert(s.labels.contains((second, id)));
    let i = choose|i: int| 0 <= i < s.labels.len() && s.labels[i] == (first, id);
    let j = choose|j: int| 0 <= j < s.labels.len() && s.labels[j] == (second, id);
    if i < j {
        assert(s.labels[i].1 == s.labels[j].1);
    } else {
        assert(s.labels[j].1 == s.labels[i].1);
    }
}

/// In the text written for tame tokens, at every point of the walk and at
/// its end, no label is defined twice: of the lines that begin with a
/// label and its colon, no two begin with the same label.
pub proof fn no_label_is_defined_twice(
    tokens: Seq<TokenModel>,
    double: bool,
    n: nat,
    kind: LabelKind,
    id: nat,
)
    requires
        all_tame(tokens),
    ensures
        lines_with(state_after(tokens, double, n).output, definition(kind, id)) <= 1,
        lines_with(assembly(tokens, double), definition(kind, id)) <= 1,
{
    lemma_state_after_tallied(tokens, double, n);
    lemma_state_after_tallied(tokens, double, tokens.len());
    lemma_run_ends(tokens, double);
}

} // verus!
