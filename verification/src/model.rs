use vstd::prelude::*;
use crate::emit::{
    epilogue, import_note, jump_if_zero, jump_to, label_line, label_text, load_immediate,
    load_slot, parameter_note, prologue, store_slot, string_data, verbatim_word, LabelKind,
};
use crate::token::{identifier_at, number_at, token_at, TokenModel};

verus! {

/// The reserved names that the generator intercepts before it takes an
/// identifier for the start of a function.
#[derive(Debug, Clone, Copy, PartialEq, Eq, Structural)]
pub enum Keyword {
    Ret,
    Mem,
    Ref,
    Loop,
    Brk,
    Jump,
    Imp,
    Verbatim,
    Plain,
}

/// The keyword that an identifier spells; `Plain` for every other name.
pub open spec fn keyword_of(name: Seq<char>) -> Keyword {
    if name == "ret"@ {
        Keyword::Ret
    } else if name == "mem"@ {
        Keyword::Mem
    } else if name == "ref"@ {
        Keyword::Ref
    } else if name == "loop"@ {
        Keyword::Loop
    } else if name == "brk"@ {
        Keyword::Brk
    } else if name == "jump"@ {
        Keyword::Jump
    } else if name == "imp"@ {
        Keyword::Imp
    } else if name == "asm"@ {
        Keyword::Verbatim
    } else {
        Keyword::Plain
    }
}

/// The operators that make the generator emit something.
#[derive(Debug, Clone, Copy, PartialEq, Eq, Structural)]
pub enum Operator {
    Add,
    Sub,
    Mul,
    Div,
    Equal,
    NotEqual,
    Less,
    Greater,
    LessEqual,
    GreaterEqual,
    Then,
    Otherwise,
    Other,
}

/// The operator that an operation token spells; `Other` for those without effect.
pub open spec fn operator_of(text: Seq<char>) -> Operator {
    if text == "+"@ {
        Operator::Add
    } else if text == "-"@ {
        Operator::Sub
    } else if text == "*"@ {
        Operator::Mul
    } else if text == "/"@ {
        Operator::Div
    } else if text == "=="@ {
        Operator::Equal
    } else if text == "!="@ {
        Operator::NotEqual
    } else if text == "<"@ {
        Operator::Less
    } else if text == ">"@ {
        Operator::Greater
    } else if text == "<="@ {
        Operator::LessEqual
    } else if text == ">="@ {
        Operator::GreaterEqual
    } else if text == "->"@ {
        Operator::Then
    } else if text == "!->"@ {
        Operator::Otherwise
    } else {
        Operator::Other
    }
}

/// Whether `op` computes a number from two operands.
pub open spec fn is_arithmetic(op: Operator) -> bool {
    op == Operator::Add || op == Operator::Sub || op == Operator::Mul || op == Operator::Div
}

/// Whether `op` compares two operands.
pub open spec fn is_comparison(op: Operator) -> bool {
    op == Operator::Equal || op == Operator::NotEqual || op == Operator::Less || op
        == Operator::Greater || op == Operator::LessEqual || op == Operator::GreaterEqual
}

/// The instructions emitted for a binary operator once both operands are
/// loaded: the arithmetic instruction, or the compare that leaves 0 or 1 in
/// the primary register.
pub open spec fn instruction(op: Operator) -> Seq<char> {
    match op {
        Operator::Add => "    add rax, rbx\n"@,
        Operator::Sub => "    sub rax, rbx\n"@,
        Operator::Mul => "    imul rax, rbx\n"@,
        Operator::Div => "    cqo\n    idiv rbx\n"@,
        Operator::Equal => "    cmp rax, rbx\n    sete al\n    movzx rax, al\n"@,
        Operator::NotEqual => "    cmp rax, rbx\n    setne al\n    movzx rax, al\n"@,
        Operator::Less => "    cmp rax, rbx\n    setl al\n    movzx rax, al\n"@,
        Operator::Greater => "    cmp rax, rbx\n    setg al\n    movzx rax, al\n"@,
        Operator::LessEqual => "    cmp rax, rbx\n    setle al\n    movzx rax, al\n"@,
        Operator::GreaterEqual => "    cmp rax, rbx\n    setge al\n    movzx rax, al\n"@,
        _ => Seq::<char>::empty(),
    }
}

/// Everything the generator knows between two tokens.
pub struct GenState {
    /// Position of the next token to look at.
    pub cursor: int,
    /// Offset of the slot bound last in the current function; 0 before the first.
    pub offset: int,
    /// Frame offset table: the slot of each name bound so far.
    pub frame: Map<Seq<char>, int>,
    /// Number of the next label.
    pub counter: nat,
    /// Numbers of the loops that are open, innermost last.
    pub loops: Seq<nat>,
    /// Numbers of the conditionals that are open, innermost last.
    pub ifs: Seq<nat>,
    /// The assembly text written so far.
    pub output: Seq<char>,
    /// Whether a name was read that the table did not hold.
    pub unbound: bool,
    /// The names bound since the current function began, each once, in the
    /// order in which they were bound.
    pub scope: Seq<Seq<char>>,
    /// Every label made up so far, in the order of their making.
    pub labels: Seq<(LabelKind, nat)>,
    /// How many loops were opened, and how many loop-end labels were written.
    pub loops_opened: nat,
    pub loops_closed: nat,
    /// How many conditionals were opened, and how many if-end labels were written.
    pub ifs_opened: nat,
    pub ifs_closed: nat,
}

/// What keeps the generator's arithmetic within the machine's integers: the
/// frame grows by at most one slot, and the labels by at most one, for every
/// token that the cursor has passed. And every name of the current function
/// has its slot in the table.
pub open spec fn bounded(s: GenState, len: int) -> bool {
    &&& 0 <= s.cursor <= len
    &&& s.offset <= 0
    &&& -s.offset <= 8 * s.cursor
    &&& s.counter <= s.cursor
    &&& scope_has_slots(s)
}

/// The state before the first token.
pub open spec fn initial() -> GenState {
    GenState {
        cursor: 0,
        offset: 0,
        frame: Map::empty(),
        counter: 0,
        loops: Seq::empty(),
        ifs: Seq::empty(),
        output: Seq::empty(),
        unbound: false,
        scope: Seq::empty(),
        labels: Seq::empty(),
        loops_opened: 0,
        loops_closed: 0,
        ifs_opened: 0,
        ifs_closed: 0,
    }
}

/// The width of a frame slot in bytes.
pub open spec fn word_size(double: bool) -> int {
    if double {
        8
    } else {
        4
    }
}

/// `s` with `text` written behind its output.
pub open spec fn emit(s: GenState, text: Seq<char>) -> GenState {
    GenState { output: s.output + text, ..s }
}

/// `s` with the cursor moved `by` tokens on, but not past the end of a stream
/// of `len` tokens.
pub open spec fn advance(s: GenState, by: int, len: int) -> GenState {
    GenState { cursor: if s.cursor + by <= len { s.cursor + by } else { len }, ..s }
}

/// The frame slot of an operand: that of a bound identifier, none otherwise.
pub open spec fn slot_of(s: GenState, operand: TokenModel) -> Option<int> {
    match operand {
        TokenModel::Identifier(name) => if s.frame.contains_key(name) {
            Some(s.frame[name])
        } else {
            None
        },
        _ => None,
    }
}

/// Whether an operand is a name that the table does not hold.
pub open spec fn names_unbound(s: GenState, operand: TokenModel) -> bool {
    match operand {
        TokenModel::Identifier(name) => !s.frame.contains_key(name),
        _ => false,
    }
}

/// What loading an operand into `reg` writes: a load from the slot of a
/// bound identifier, an immediate for a number, nothing for anything else.
pub open spec fn operand_text(s: GenState, operand: TokenModel, reg: Seq<char>) -> Seq<char> {
    match operand {
        TokenModel::Identifier(name) => if s.frame.contains_key(name) {
            load_slot(reg, s.frame[name])
        } else {
            Seq::<char>::empty()
        },
        TokenModel::Number(digits) => load_immediate(reg, digits),
        _ => Seq::<char>::empty(),
    }
}

/// `s` after loading an operand into `reg`.
pub open spec fn load_operand(s: GenState, operand: TokenModel, reg: Seq<char>) -> GenState {
    GenState {
        output: s.output + operand_text(s, operand, reg),
        unbound: s.unbound || names_unbound(s, operand),
        ..s
    }
}

/// `s` after binding `name`. A name that the current function has not bound
/// yet gets the next free slot of the frame, one word below the last. A name
/// that it has bound already keeps its slot, and nothing changes.
pub open spec fn bind(s: GenState, name: Seq<char>, word: int) -> GenState {
    if s.scope.contains(name) {
        s
    } else {
        GenState {
            offset: s.offset - word,
            frame: s.frame.insert(name, s.offset - word),
            scope: s.scope.push(name),
            ..s
        }
    }
}

/// `ret`: load the value that follows, if it is a number or a bound name,
/// then leave the function. The token after `ret` is passed over.
pub open spec fn step_ret(tokens: Seq<TokenModel>, s: GenState) -> GenState {
    let loaded = match token_at(tokens, s.cursor + 1) {
        Some(operand) => load_operand(s, operand, "rax"@),
        None => s,
    };
    advance(emit(loaded, epilogue()), 2, tokens.len() as int)
}

/// `mem <name> [<number>]`: bind the name, and store the number in its slot
/// if one follows.
pub open spec fn step_mem(tokens: Seq<TokenModel>, word: int, s: GenState) -> GenState {
    match identifier_at(tokens, s.cursor + 1) {
        Some(name) => {
            let bound = bind(s, name, word);
            match number_at(tokens, s.cursor + 2) {
                Some(digits) => advance(
                    emit(bound, load_immediate("rax"@, digits) + store_slot(bound.frame[name])),
                    3,
                    tokens.len() as int,
                ),
                None => advance(bound, 2, tokens.len() as int),
            }
        },
        None => advance(s, 1, tokens.len() as int),
    }
}

/// `ref <name>`: load the slot of `name` into the primary register.
pub open spec fn step_ref(tokens: Seq<TokenModel>, s: GenState) -> GenState {
    match identifier_at(tokens, s.cursor + 1) {
        Some(name) => advance(
            load_operand(s, TokenModel::Identifier(name), "rax"@),
            2,
            tokens.len() as int,
        ),
        None => advance(s, 1, tokens.len() as int),
    }
}

/// `loop`: make up the two labels of a new loop, open it, define its start.
pub open spec fn step_loop(tokens: Seq<TokenModel>, s: GenState) -> GenState {
    let opened = GenState {
        counter: s.counter + 1,
        loops: s.loops.push(s.counter),
        output: s.output + label_line(label_text(LabelKind::LoopStart, s.counter)),
        labels: s.labels.push((LabelKind::LoopStart, s.counter)).push(
            (LabelKind::LoopEnd, s.counter),
        ),
        loops_opened: s.loops_opened + 1,
        ..s
    };
    advance(opened, 1, tokens.len() as int)
}

/// `brk`: jump to the end of the innermost open loop; nothing where none is open.
pub open spec fn step_brk(tokens: Seq<TokenModel>, s: GenState) -> GenState {
    let jumped = if s.loops.len() > 0 {
        emit(s, jump_to(label_text(LabelKind::LoopEnd, s.loops.last())))
    } else {
        s
    };
    advance(jumped, 1, tokens.len() as int)
}

/// `jump <label>`: jump to a label that the source names.
pub open spec fn step_jump(tokens: Seq<TokenModel>, s: GenState) -> GenState {
    match identifier_at(tokens, s.cursor + 1) {
        Some(label) => advance(emit(s, jump_to(label)), 2, tokens.len() as int),
        None => advance(s, 1, tokens.len() as int),
    }
}

/// `imp <path>`: leave a comment that marks the import.
pub open spec fn step_imp(tokens: Seq<TokenModel>, s: GenState) -> GenState {
    match identifier_at(tokens, s.cursor + 1) {
        Some(path) => advance(emit(s, import_note(path)), 2, tokens.len() as int),
        None => advance(s, 1, tokens.len() as int),
    }
}

/// The first position from `from` on that holds a semicolon; the length of
/// the stream where none does.
pub open spec fn semicolon_from(tokens: Seq<TokenModel>, from: int) -> int
    decreases tokens.len() - from,
{
    if from < 0 || from >= tokens.len() {
        tokens.len() as int
    } else if tokens[from] == TokenModel::SemiColon {
        from
    } else {
        semicolon_from(tokens, from + 1)
    }
}

/// What one token inside an assembly escape contributes: identifiers and
/// numbers are copied, everything else is dropped.
pub open spec fn verbatim_piece(token: TokenModel) -> Seq<char> {
    match token {
        TokenModel::Identifier(word) => verbatim_word(word),
        TokenModel::Number(word) => verbatim_word(word),
        _ => Seq::<char>::empty(),
    }
}

/// The pieces of the tokens at `from..to`, one behind the other.
pub open spec fn verbatim_text(tokens: Seq<TokenModel>, from: int, to: int) -> Seq<char>
    decreases to - from,
{
    if from >= to || to > tokens.len() || from < 0 {
        Seq::<char>::empty()
    } else {
        verbatim_text(tokens, from, to - 1) + verbatim_piece(tokens[to - 1])
    }
}

/// `asm ... ;`: copy the words up to the next semicolon, then end the line.
pub open spec fn step_verbatim(tokens: Seq<TokenModel>, s: GenState) -> GenState {
    let end = semicolon_from(tokens, s.cursor + 1);
    advance(
        emit(s, verbatim_text(tokens, s.cursor + 1, end) + "\n"@),
        end + 1 - s.cursor,
        tokens.len() as int,
    )
}

/// The first position from `from` on that holds no identifier; the length of
/// the stream where all do.
pub open spec fn identifiers_end(tokens: Seq<TokenModel>, from: int) -> int
    decreases tokens.len() - from,
{
    if from < 0 || from >= tokens.len() {
        tokens.len() as int
    } else if tokens[from] is Identifier {
        identifiers_end(tokens, from + 1)
    } else {
        from
    }
}

/// `s` after binding one parameter and noting where it lives.
pub open spec fn bind_parameter(s: GenState, name: Seq<char>, word: int) -> GenState {
    let bound = bind(s, name, word);
    emit(bound, parameter_note(name, bound.frame[name]))
}

/// `s` after binding the identifiers at `from..to` as parameters, in order.
pub open spec fn bind_parameters(
    s: GenState,
    tokens: Seq<TokenModel>,
    from: int,
    to: int,
    word: int,
) -> GenState
    decreases to - from,
{
    if from >= to {
        s
    } else {
        match identifier_at(tokens, to - 1) {
            Some(name) => bind_parameter(
                bind_parameters(s, tokens, from, to - 1, word),
                name,
                word,
            ),
            None => bind_parameters(s, tokens, from, to - 1, word),
        }
    }
}

/// `s` at the start of the function `name`: its label and prologue are
/// written, the frame starts anew at offset 0 with no name of its own. The
/// table keeps the names it has.
pub open spec fn enter_function(s: GenState, name: Seq<char>) -> GenState {
    GenState { offset: 0, scope: Seq::empty(), output: s.output + prologue(name), ..s }
}

/// Any other identifier: where a run of identifiers and then an opening
/// brace follow, a function begins. Its label and prologue are written, the
/// frame starts anew at offset 0 (the table keeps the names it has), and the
/// identifiers of the run are bound as parameters.
pub open spec fn step_plain(
    tokens: Seq<TokenModel>,
    word: int,
    s: GenState,
    name: Seq<char>,
) -> GenState {
    let end = identifiers_end(tokens, s.cursor + 1);
    if token_at(tokens, end) == Some(TokenModel::BraceOpen) {
        let bound = bind_parameters(enter_function(s, name), tokens, s.cursor + 1, end, word);
        GenState { cursor: end + 1, ..bound }
    } else {
        advance(s, 1, tokens.len() as int)
    }
}

/// An identifier: a keyword, or else perhaps the start of a function.
pub open spec fn step_identifier(
    tokens: Seq<TokenModel>,
    word: int,
    s: GenState,
    name: Seq<char>,
) -> GenState {
    match keyword_of(name) {
        Keyword::Ret => step_ret(tokens, s),
        Keyword::Mem => step_mem(tokens, word, s),
        Keyword::Ref => step_ref(tokens, s),
        Keyword::Loop => step_loop(tokens, s),
        Keyword::Brk => step_brk(tokens, s),
        Keyword::Jump => step_jump(tokens, s),
        Keyword::Imp => step_imp(tokens, s),
        Keyword::Verbatim => step_verbatim(tokens, s),
        Keyword::Plain => step_plain(tokens, word, s, name),
    }
}

/// A binary operator between two tokens: load the left one into `rax` and
/// the right one into `rbx`, operate, and, for arithmetic on a bound name,
/// store the result back into its slot. The right operand is passed over.
/// At either end of the stream the operator is passed over alone.
pub open spec fn step_binary(tokens: Seq<TokenModel>, s: GenState, op: Operator) -> GenState {
    if s.cursor > 0 && s.cursor + 1 < tokens.len() {
        let left = tokens[s.cursor - 1];
        let right = tokens[s.cursor + 1];
        let loaded = load_operand(load_operand(s, left, "rax"@), right, "rbx"@);
        let computed = emit(loaded, instruction(op));
        let stored = match slot_of(s, left) {
            Some(offset) => if is_arithmetic(op) {
                emit(computed, store_slot(offset))
            } else {
                computed
            },
            None => computed,
        };
        advance(stored, 2, tokens.len() as int)
    } else {
        advance(s, 1, tokens.len() as int)
    }
}

/// `->`: open a conditional; skip to its end where the primary register holds zero.
pub open spec fn step_then(tokens: Seq<TokenModel>, s: GenState) -> GenState {
    let opened = GenState {
        counter: s.counter + 1,
        ifs: s.ifs.push(s.counter),
        output: s.output + jump_if_zero(label_text(LabelKind::IfEnd, s.counter)),
        labels: s.labels.push((LabelKind::IfEnd, s.counter)),
        ifs_opened: s.ifs_opened + 1,
        ..s
    };
    advance(opened, 1, tokens.len() as int)
}

/// `!->`: take the innermost open conditional off and jump to its end;
/// nothing where none is open.
pub open spec fn step_otherwise(tokens: Seq<TokenModel>, s: GenState) -> GenState {
    let jumped = if s.ifs.len() > 0 {
        GenState {
            ifs: s.ifs.drop_last(),
            output: s.output + jump_to(label_text(LabelKind::IfEnd, s.ifs.last())),
            ..s
        }
    } else {
        s
    };
    advance(jumped, 1, tokens.len() as int)
}

/// An operation token.
pub open spec fn step_operation(tokens: Seq<TokenModel>, s: GenState, text: Seq<char>) -> GenState {
    let op = operator_of(text);
    if is_arithmetic(op) || is_comparison(op) {
        step_binary(tokens, s, op)
    } else if op == Operator::Then {
        step_then(tokens, s)
    } else if op == Operator::Otherwise {
        step_otherwise(tokens, s)
    } else {
        advance(s, 1, tokens.len() as int)
    }
}

/// `s` after the innermost open loop, if there is one, got its end label.
pub open spec fn close_loop(s: GenState) -> GenState {
    if s.loops.len() > 0 {
        GenState {
            loops: s.loops.drop_last(),
            output: s.output + label_line(label_text(LabelKind::LoopEnd, s.loops.last())),
            loops_closed: s.loops_closed + 1,
            ..s
        }
    } else {
        s
    }
}

/// `s` after the innermost open conditional, if there is one, got its end label.
pub open spec fn close_if(s: GenState) -> GenState {
    if s.ifs.len() > 0 {
        GenState {
            ifs: s.ifs.drop_last(),
            output: s.output + label_line(label_text(LabelKind::IfEnd, s.ifs.last())),
            ifs_closed: s.ifs_closed + 1,
            ..s
        }
    } else {
        s
    }
}

/// A closing brace: first the innermost loop is closed, then the innermost
/// conditional, each only where one is open.
pub open spec fn step_close(tokens: Seq<TokenModel>, s: GenState) -> GenState {
    advance(close_if(close_loop(s)), 1, tokens.len() as int)
}

/// A number that no operator took: load it into the primary register.
pub open spec fn step_number(tokens: Seq<TokenModel>, s: GenState, digits: Seq<char>) -> GenState {
    advance(emit(s, load_immediate("rax"@, digits)), 1, tokens.len() as int)
}

/// A string literal: place its bytes under a new label.
pub open spec fn step_string(tokens: Seq<TokenModel>, s: GenState, content: Seq<char>) -> GenState {
    let placed = GenState {
        counter: s.counter + 1,
        output: s.output + string_data(label_text(LabelKind::Text, s.counter), content),
        labels: s.labels.push((LabelKind::Text, s.counter)),
        ..s
    };
    advance(placed, 1, tokens.len() as int)
}

/// One step of the generator: what the token under the cursor does to the state.
pub open spec fn step(tokens: Seq<TokenModel>, word: int, s: GenState) -> GenState
    recommends
        0 <= s.cursor < tokens.len(),
{
    match tokens[s.cursor] {
        TokenModel::Identifier(name) => step_identifier(tokens, word, s, name),
        TokenModel::Operation(text) => step_operation(tokens, s, text),
        TokenModel::BraceClose => step_close(tokens, s),
        TokenModel::Number(digits) => step_number(tokens, s, digits),
        TokenModel::StringLiteral(content) => step_string(tokens, s, content),
        _ => advance(s, 1, tokens.len() as int),
    }
}

/// The first semicolon from `from` on stands at or behind `from`, within the stream.
pub proof fn lemma_semicolon_from(tokens: Seq<TokenModel>, from: int)
    requires
        0 <= from <= tokens.len(),
    ensures
        from <= semicolon_from(tokens, from) <= tokens.len(),
    decreases tokens.len() - from,
{
    if from < tokens.len() && tokens[from] != TokenModel::SemiColon {
        lemma_semicolon_from(tokens, from + 1);
    }
}

/// The run of identifiers from `from` on ends at or behind `from`, within the stream.
pub proof fn lemma_identifiers_end(tokens: Seq<TokenModel>, from: int)
    requires
        0 <= from <= tokens.len(),
    ensures
        from <= identifiers_end(tokens, from) <= tokens.len(),
    decreases tokens.len() - from,
{
    if from < tokens.len() && tokens[from] is Identifier {
        lemma_identifiers_end(tokens, from + 1);
    }
}

/// Binding parameters leaves the cursor and the label counter where they were.
pub proof fn lemma_bind_parameters_cursor(
    s: GenState,
    tokens: Seq<TokenModel>,
    from: int,
    to: int,
    word: int,
)
    ensures
        bind_parameters(s, tokens, from, to, word).cursor == s.cursor,
        bind_parameters(s, tokens, from, to, word).counter == s.counter,
    decreases to - from,
{
    if from < to {
        lemma_bind_parameters_cursor(s, tokens, from, to - 1, word);
    }
}

/// Every step moves the cursor on, and never past the end.
pub proof fn lemma_step_moves_on(tokens: Seq<TokenModel>, word: int, s: GenState)
    requires
        0 <= s.cursor < tokens.len(),
    ensures
        s.cursor < step(tokens, word, s).cursor <= tokens.len(),
{
    lemma_semicolon_from(tokens, s.cursor + 1);
    lemma_identifiers_end(tokens, s.cursor + 1);
    match tokens[s.cursor] {
        TokenModel::Identifier(name) => {
            let end = identifiers_end(tokens, s.cursor + 1);
            lemma_bind_parameters_cursor(enter_function(s, name), tokens, s.cursor + 1, end, word);
        },
        _ => {},
    }
}

/// The state in which the generator stops when started in `s`: steps are
/// taken until the cursor has passed the last token.
pub open spec fn run(tokens: Seq<TokenModel>, word: int, s: GenState) -> GenState
    decreases tokens.len() - s.cursor,
{
    if 0 <= s.cursor < tokens.len() {
        proof {
            lemma_step_moves_on(tokens, word, s);
        }
        run(tokens, word, step(tokens, word, s))
    } else {
        s
    }
}

/// The assembly text for a stream of tokens, with slots of 8 bytes where
/// `double` is set and of 4 bytes where it is not.
pub open spec fn assembly(tokens: Seq<TokenModel>, double: bool) -> Seq<char> {
    run(tokens, word_size(double), initial()).output
}

/// Whether the walk over `tokens` reads a name that is bound nowhere before:
/// after `ret` or `ref`, or as an operand of a binary operator.
pub open spec fn reads_unbound(tokens: Seq<TokenModel>, double: bool) -> bool {
    run(tokens, word_size(double), initial()).unbound
}

/// Whether every name of the current function has its slot in the table.
pub open spec fn scope_has_slots(s: GenState) -> bool {
    forall|name: Seq<char>| #[trigger] s.scope.contains(name) ==> s.frame.contains_key(name)
}

/// After binding, the name has a slot, and so has every name that had one.
pub proof fn lemma_bind_keeps_slots(s: GenState, name: Seq<char>, word: int)
    requires
        scope_has_slots(s),
    ensures
        scope_has_slots(bind(s, name, word)),
        bind(s, name, word).frame.contains_key(name),
{
    let t = bind(s, name, word);
    if !s.scope.contains(name) {
        assert forall|known: Seq<char>| #[trigger] t.scope.contains(known) implies t.frame.contains_key(
            known,
        ) by {
            let i = choose|i: int| 0 <= i < t.scope.len() && t.scope[i] == known;
            if i < s.scope.len() {
                assert(s.scope[i] == known);
                assert(s.scope.contains(known));
            }
        }
    }
}

/// Binding parameters moves the offset down by at most one word for each,
/// and gives each of them its slot in the table.
pub proof fn lemma_bind_parameters_bounds(
    s: GenState,
    tokens: Seq<TokenModel>,
    from: int,
    to: int,
    word: int,
)
    requires
        0 < word <= 8,
        from <= to,
        scope_has_slots(s),
    ensures
        s.offset - 8 * (to - from) <= bind_parameters(s, tokens, from, to, word).offset
            <= s.offset,
        scope_has_slots(bind_parameters(s, tokens, from, to, word)),
    decreases to - from,
{
    if from < to {
        lemma_bind_parameters_bounds(s, tokens, from, to - 1, word);
        match identifier_at(tokens, to - 1) {
            Some(name) => {
                lemma_bind_keeps_slots(bind_parameters(s, tokens, from, to - 1, word), name, word);
            },
            None => {},
        }
    }
}

/// A step keeps the state within [`bounded`].
pub proof fn lemma_step_keeps_bounded(tokens: Seq<TokenModel>, word: int, s: GenState)
    requires
        bounded(s, tokens.len() as int),
        s.cursor < tokens.len(),
        0 < word <= 8,
    ensures
        bounded(step(tokens, word, s), tokens.len() as int),
        s.cursor < step(tokens, word, s).cursor,
{
    lemma_step_moves_on(tokens, word, s);
    match tokens[s.cursor] {
        TokenModel::Identifier(name) => {
            if keyword_of(name) == Keyword::Plain {
                let end = identifiers_end(tokens, s.cursor + 1);
                lemma_identifiers_end(tokens, s.cursor + 1);
                let entered = enter_function(s, name);
                lemma_bind_parameters_cursor(entered, tokens, s.cursor + 1, end, word);
                lemma_bind_parameters_bounds(entered, tokens, s.cursor + 1, end, word);
            } else if keyword_of(name) == Keyword::Mem {
                match identifier_at(tokens, s.cursor + 1) {
                    Some(declared) => {
                        lemma_bind_keeps_slots(s, declared, word);
                    },
                    None => {},
                }
            }
        },
        _ => {},
    }
}

} // verus!
