use vstd::prelude::*;
use crate::decimal::{
    decimal, lemma_decimal_injective, push_decimal, push_signed_decimal, signed_decimal,
};

verus! {

/// The four families of labels that the generator makes up.
#[derive(Debug, Clone, Copy, PartialEq, Eq, Structural)]
pub enum LabelKind {
    LoopStart,
    LoopEnd,
    IfEnd,
    Text,
}

/// What every label of one family starts with.
pub open spec fn label_prefix(kind: LabelKind) -> Seq<char> {
    match kind {
        LabelKind::LoopStart => ".loop_start"@,
        LabelKind::LoopEnd => ".loop_end"@,
        LabelKind::IfEnd => ".if_end"@,
        LabelKind::Text => ".str"@,
    }
}

/// The label of family `kind` with number `id`.
pub open spec fn label_text(kind: LabelKind, id: nat) -> Seq<char> {
    label_prefix(kind) + decimal(id)
}

/// Two labels are spelled alike only if family and number agree.
pub proof fn lemma_label_text_injective(k1: LabelKind, a: nat, k2: LabelKind, b: nat)
    requires
        label_text(k1, a) == label_text(k2, b),
    ensures
        k1 == k2,
        a == b,
{
    reveal_strlit(".loop_start");
    reveal_strlit(".loop_end");
    reveal_strlit(".if_end");
    reveal_strlit(".str");
    let x = label_text(k1, a);
    let y = label_text(k2, b);
    // The families differ in their second character, the two of a loop in
    // their seventh.
    assert(x[1] == label_prefix(k1)[1]);
    assert(y[1] == label_prefix(k2)[1]);
    assert(x[6] == label_prefix(k1)[6] || k1 == LabelKind::IfEnd || k1 == LabelKind::Text);
    assert(y[6] == label_prefix(k2)[6] || k2 == LabelKind::IfEnd || k2 == LabelKind::Text);
    assert(k1 == k2);
    let p = label_prefix(k1);
    assert(x.subrange(p.len() as int, x.len() as int) =~= decimal(a));
    assert(y.subrange(p.len() as int, y.len() as int) =~= decimal(b));
    lemma_decimal_injective(a, b);
}

/// `    mov <reg>, [rbp<offset>]`: loads a frame slot into a register.
pub open spec fn load_slot(reg: Seq<char>, offset: int) -> Seq<char> {
    "    mov "@ + reg + ", [rbp"@ + signed_decimal(offset) + "]\n"@
}

/// `    mov <reg>, <digits>`: loads an immediate into a register.
pub open spec fn load_immediate(reg: Seq<char>, digits: Seq<char>) -> Seq<char> {
    "    mov "@ + reg + ", "@ + digits + "\n"@
}

/// `    mov [rbp<offset>], rax`: stores the primary register into a frame slot.
pub open spec fn store_slot(offset: int) -> Seq<char> {
    "    mov [rbp"@ + signed_decimal(offset) + "], rax\n"@
}

/// The end of a function: restore the frame and return.
pub open spec fn epilogue() -> Seq<char> {
    "    leave\n    ret\n"@
}

/// The start of a function: its label, then save and establish the frame.
pub open spec fn prologue(name: Seq<char>) -> Seq<char> {
    name + ":\n    push rbp\n    mov rbp, rsp\n"@
}

/// The comment that records where a parameter lives.
pub open spec fn parameter_note(name: Seq<char>, offset: int) -> Seq<char> {
    "    ; arg "@ + name + " at [rbp"@ + signed_decimal(offset) + "]\n"@
}

/// The line that defines a label.
pub open spec fn label_line(label: Seq<char>) -> Seq<char> {
    label + ":\n"@
}

/// An unconditional jump.
pub open spec fn jump_to(label: Seq<char>) -> Seq<char> {
    "    jmp "@ + label + "\n"@
}

/// A jump taken when the primary register holds zero.
pub open spec fn jump_if_zero(label: Seq<char>) -> Seq<char> {
    "    cmp rax, 0\n    je "@ + label + "\n"@
}

/// The comment that marks an import.
pub open spec fn import_note(path: Seq<char>) -> Seq<char> {
    "    ; import "@ + path + "\n"@
}

/// A null-terminated byte string placed under a label.
pub open spec fn string_data(label: Seq<char>, content: Seq<char>) -> Seq<char> {
    label + ": db '"@ + content + "', 0\n"@
}

/// One word copied into an assembly escape, with the blank behind it.
pub open spec fn verbatim_word(word: Seq<char>) -> Seq<char> {
    word + " "@
}

/// Appends the label of family `kind` with number `id`.
pub fn push_label(out: &mut String, kind: LabelKind, id: usize)
    ensures
        final(out)@ == old(out)@ + label_text(kind, id as nat),
{
    match kind {
        LabelKind::LoopStart => out.append(".loop_start"),
        LabelKind::LoopEnd => out.append(".loop_end"),
        LabelKind::IfEnd => out.append(".if_end"),
        LabelKind::Text => out.append(".str"),
    }
    push_decimal(out, id as u128);
    proof {
        assert(old(out)@ + label_prefix(kind) + decimal(id as nat) =~= old(out)@ + label_text(
            kind,
            id as nat,
        ));
    }
}

/// Appends [`load_slot`].
pub fn push_load_slot(out: &mut String, reg: &str, offset: i128)
    ensures
        final(out)@ == old(out)@ + load_slot(reg@, offset as int),
{
    out.append("    mov ");
    out.append(reg);
    out.append(", [rbp");
    push_signed_decimal(out, offset);
    out.append("]\n");
    proof {
        assert(final(out)@ =~= old(out)@ + load_slot(reg@, offset as int));
    }
}

/// Appends [`load_immediate`].
pub fn push_load_immediate(out: &mut String, reg: &str, digits: &str)
    ensures
        final(out)@ == old(out)@ + load_immediate(reg@, digits@),
{
    out.append("    mov ");
    out.append(reg);
    out.append(", ");
    out.append(digits);
    out.append("\n");
    proof {
        assert(final(out)@ =~= old(out)@ + load_immediate(reg@, digits@));
    }
}

/// Appends [`store_slot`].
pub fn push_store_slot(out: &mut String, offset: i128)
    ensures
        final(out)@ == old(out)@ + store_slot(offset as int),
{
    out.append("    mov [rbp");
    push_signed_decimal(out, offset);
    out.append("], rax\n");
    proof {
        assert(final(out)@ =~= old(out)@ + store_slot(offset as int));
    }
}

/// Appends [`prologue`].
pub fn push_prologue(out: &mut String, name: &str)
    ensures
        final(out)@ == old(out)@ + prologue(name@),
{
    out.append(name);
    out.append(":\n    push rbp\n    mov rbp, rsp\n");
    proof {
        assert(final(out)@ =~= old(out)@ + prologue(name@));
    }
}

/// Appends [`parameter_note`].
pub fn push_parameter_note(out: &mut String, name: &str, offset: i128)
    ensures
        final(out)@ == old(out)@ + parameter_note(name@, offset as int),
{
    out.append("    ; arg ");
    out.append(name);
    out.append(" at [rbp");
    push_signed_decimal(out, offset);
    out.append("]\n");
    proof {
        assert(final(out)@ =~= old(out)@ + parameter_note(name@, offset as int));
    }
}

/// Appends the line that defines the label of family `kind` with number `id`.
pub fn push_label_line(out: &mut String, kind: LabelKind, id: usize)
    ensures
        final(out)@ == old(out)@ + label_line(label_text(kind, id as nat)),
{
    push_label(out, kind, id);
    out.append(":\n");
    proof {
        assert(final(out)@ =~= old(out)@ + label_line(label_text(kind, id as nat)));
    }
}

/// Appends a jump to the label of family `kind` with number `id`.
pub fn push_jump_to_label(out: &mut String, kind: LabelKind, id: usize)
    ensures
        final(out)@ == old(out)@ + jump_to(label_text(kind, id as nat)),
{
    out.append("    jmp ");
    push_label(out, kind, id);
    out.append("\n");
    proof {
        assert(final(out)@ =~= old(out)@ + jump_to(label_text(kind, id as nat)));
    }
}

/// Appends a jump to a label that the source names.
pub fn push_jump_to(out: &mut String, label: &str)
    ensures
        final(out)@ == old(out)@ + jump_to(label@),
{
    out.append("    jmp ");
    out.append(label);
    out.append("\n");
    proof {
        assert(final(out)@ =~= old(out)@ + jump_to(label@));
    }
}

/// Appends [`jump_if_zero`] to the if-end label with number `id`.
pub fn push_jump_if_zero(out: &mut String, id: usize)
    ensures
        final(out)@ == old(out)@ + jump_if_zero(label_text(LabelKind::IfEnd, id as nat)),
{
    out.append("    cmp rax, 0\n    je ");
    push_label(out, LabelKind::IfEnd, id);
    out.append("\n");
    proof {
        assert(final(out)@ =~= old(out)@ + jump_if_zero(
            label_text(LabelKind::IfEnd, id as nat),
        ));
    }
}

/// Appends [`import_note`].
pub fn push_import_note(out: &mut String, path: &str)
    ensures
        final(out)@ == old(out)@ + import_note(path@),
{
    out.append("    ; import ");
    out.append(path);
    out.append("\n");
    proof {
        assert(final(out)@ =~= old(out)@ + import_note(path@));
    }
}

/// Appends [`string_data`] under the string label with number `id`.
pub fn push_string_data(out: &mut String, id: usize, content: &str)
    ensures
        final(out)@ == old(out)@ + string_data(label_text(LabelKind::Text, id as nat), content@),
{
    push_label(out, LabelKind::Text, id);
    out.append(": db '");
    out.append(content);
    out.append("', 0\n");
    proof {
        assert(final(out)@ =~= old(out)@ + string_data(
            label_text(LabelKind::Text, id as nat),
            content@,
        ));
    }
}

/// Appends [`verbatim_word`].
pub fn push_verbatim_word(out: &mut String, word: &str)
    ensures
        final(out)@ == old(out)@ + verbatim_word(word@),
{
    out.append(word);
    out.append(" ");
    proof {
        assert(final(out)@ =~= old(out)@ + verbatim_word(word@));
    }
}

} // verus!
