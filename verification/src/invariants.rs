use vstd::prelude::*;
use crate::emit::{
    label_text, lemma_label_text_injective, load_immediate, parameter_note, prologue, store_slot,
};
use crate::model::{
    bind, bind_parameters, enter_function, identifiers_end, initial, keyword_of,
    lemma_bind_parameters_cursor, lemma_step_moves_on, run, step, word_size, GenState, Keyword,
};
use crate::token::{identifier_at, number_at, token_at, TokenModel};

verus! {

/// The offset of the `k`-th slot of a frame, counted from 1.
pub open spec fn slot(k: int, double: bool) -> int {
    if double {
        -8 * k
    } else {
        -4 * k
    }
}

/// The frame grows downwards, one word for each name: the names of the
/// current function are all different, the one bound as the `k`-th has the
/// `k`-th slot, and the running offset is that of the slot bound last.
pub open spec fn frame_ordered(s: GenState, double: bool) -> bool {
    &&& s.offset == slot(s.scope.len() as int, double)
    &&& forall|i: int|
        0 <= i < s.scope.len() ==> s.frame.contains_key(#[trigger] s.scope[i])
            && s.frame[s.scope[i]] == slot(i + 1, double)
    &&& forall|i: int, j: int|
        0 <= i < j < s.scope.len() ==> #[trigger] s.scope[i] != #[trigger] s.scope[j]
}

/// No label was made twice, and all were numbered below the counter.
pub open spec fn labels_fresh(s: GenState) -> bool {
    &&& forall|i: int| 0 <= i < s.labels.len() ==> (#[trigger] s.labels[i]).1 < s.counter
    &&& forall|i: int, j: int|
        0 <= i < j < s.labels.len() ==> #[trigger] s.labels[i] != #[trigger] s.labels[j]
}

/// Every loop that was opened is open still or got its end label; every
/// conditional that was opened is open still, got its end label, or was
/// taken off by an else arrow.
pub open spec fn scopes_balanced(s: GenState) -> bool {
    &&& s.loops_closed + s.loops.len() == s.loops_opened
    &&& s.ifs_closed + s.ifs.len() <= s.ifs_opened
}

/// What holds of the generator's state between any two steps.
pub open spec fn sound(s: GenState, double: bool) -> bool {
    &&& frame_ordered(s, double)
    &&& labels_fresh(s)
    &&& scopes_balanced(s)
}

/// The state after `n` steps from the start; the last state, once the
/// cursor has passed the last token.
pub open spec fn state_after(tokens: Seq<TokenModel>, double: bool, n: nat) -> GenState
    decreases n,
{
    if n == 0 {
        initial()
    } else {
        let before = state_after(tokens, double, (n - 1) as nat);
        if 0 <= before.cursor < tokens.len() {
            step(tokens, word_size(double), before)
        } else {
            before
        }
    }
}

/// Binding keeps a sound state sound.
pub proof fn lemma_bind_sound(s: GenState, name: Seq<char>, double: bool)
    requires
        sound(s, double),
    ensures
        sound(bind(s, name, word_size(double)), double),
        bind(s, name, word_size(double)).frame.contains_key(name),
{
    let t = bind(s, name, word_size(double));
    if s.scope.contains(name) {
        let i = choose|i: int| 0 <= i < s.scope.len() && s.scope[i] == name;
        assert(s.frame.contains_key(s.scope[i]));
    } else {
        assert forall|i: int| 0 <= i < t.scope.len() implies t.frame.contains_key(
            #[trigger] t.scope[i],
        ) && t.frame[t.scope[i]] == slot(i + 1, double) by {
            if i < s.scope.len() {
                assert(t.scope[i] == s.scope[i]);
                assert(s.scope.contains(s.scope[i]));
            }
        }
        assert forall|i: int, j: int| 0 <= i < j < t.scope.len() implies #[trigger] t.scope[i]
            != #[trigger] t.scope[j] by {
            assert(t.scope[i] == s.scope[i]);
            assert(s.scope.contains(s.scope[i]));
            if j < s.scope.len() {
                assert(t.scope[j] == s.scope[j]);
            }
        }
    }
}

proof fn lemma_bind_parameters_sound(
    s: GenState,
    tokens: Seq<TokenModel>,
    from: int,
    to: int,
    double: bool,
)
    requires
        sound(s, double),
    ensures
        sound(bind_parameters(s, tokens, from, to, word_size(double)), double),
    decreases to - from,
{
    if from < to {
        lemma_bind_parameters_sound(s, tokens, from, to - 1, double);
        match identifier_at(tokens, to - 1) {
            Some(name) => {
                lemma_bind_sound(
                    bind_parameters(s, tokens, from, to - 1, word_size(double)),
                    name,
                    double,
                );
            },
            None => {},
        }
    }
}

/// A step from a sound state ends in a sound state.
pub proof fn lemma_step_keeps_sound(tokens: Seq<TokenModel>, double: bool, s: GenState)
    requires
        sound(s, double),
        0 <= s.cursor < tokens.len(),
    ensures
        sound(step(tokens, word_size(double), s), double),
{
    match tokens[s.cursor] {
        TokenModel::Identifier(name) => {
            if keyword_of(name) == Keyword::Plain {
                let end = identifiers_end(tokens, s.cursor + 1);
                lemma_bind_parameters_sound(
                    enter_function(s, name),
                    tokens,
                    s.cursor + 1,
                    end,
                    double,
                );
            } else if keyword_of(name) == Keyword::Mem {
                match identifier_at(tokens, s.cursor + 1) {
                    Some(declared) => {
                        lemma_bind_sound(s, declared, double);
                    },
                    None => {},
                }
            }
        },
        _ => {},
    }
}

/// Every state that the walk passes through is sound.
pub proof fn lemma_state_after_sound(tokens: Seq<TokenModel>, double: bool, n: nat)
    ensures
        sound(state_after(tokens, double, n), double),
    decreases n,
{
    if n > 0 {
        lemma_state_after_sound(tokens, double, (n - 1) as nat);
        let before = state_after(tokens, double, (n - 1) as nat);
        if 0 <= before.cursor < tokens.len() {
            lemma_step_keeps_sound(tokens, double, before);
        }
    }
}

/// The walk started anew from a state it passes through ends where the walk
/// from the start ends.
proof fn lemma_run_from_state_after(tokens: Seq<TokenModel>, double: bool, n: nat)
    ensures
        run(tokens, word_size(double), state_after(tokens, double, n)) == run(
            tokens,
            word_size(double),
            initial(),
        ),
        0 <= state_after(tokens, double, n).cursor <= tokens.len(),
        state_after(tokens, double, n).cursor >= n || state_after(tokens, double, n).cursor
            == tokens.len(),
    decreases n,
{
    if n > 0 {
        lemma_run_from_state_after(tokens, double, (n - 1) as nat);
        let before = state_after(tokens, double, (n - 1) as nat);
        if 0 <= before.cursor < tokens.len() {
            lemma_step_moves_on(tokens, word_size(double), before);
        }
    }
}

/// The walk ends in the state it has reached after as many steps as there
/// are tokens.
pub proof fn lemma_run_ends(tokens: Seq<TokenModel>, double: bool)
    ensures
        run(tokens, word_size(double), initial()) == state_after(tokens, double, tokens.len()),
{
    lemma_run_from_state_after(tokens, double, tokens.len());
}

/// Any two of the labels that one walk makes up, for its loops, conditionals
/// and strings, are spelled differently.
pub proof fn labels_pairwise_distinct(tokens: Seq<TokenModel>, double: bool, i: int, j: int)
    requires
        0 <= i < j < run(tokens, word_size(double), initial()).labels.len(),
    ensures
        ({
            let made = run(tokens, word_size(double), initial()).labels;
            label_text(made[i].0, made[i].1) != label_text(made[j].0, made[j].1)
        }),
{
    lemma_run_ends(tokens, double);
    lemma_state_after_sound(tokens, double, tokens.len());
    let made = run(tokens, word_size(double), initial()).labels;
    assert(made[i] != made[j]);
    if label_text(made[i].0, made[i].1) == label_text(made[j].0, made[j].1) {
        lemma_label_text_injective(made[i].0, made[i].1, made[j].0, made[j].1);
    }
}

/// A name that the current function has not bound yet gets the next free
/// slot: one word below the slot bound last, and so strictly below the slot
/// of every name that the function bound before.
pub proof fn new_slot_lies_below(s: GenState, name: Seq<char>, double: bool, earlier: Seq<char>)
    requires
        frame_ordered(s, double),
        !s.scope.contains(name),
        s.scope.contains(earlier),
    ensures
        bind(s, name, word_size(double)).frame[name] == s.offset - word_size(double),
        bind(s, name, word_size(double)).frame[name] < s.frame[earlier],
        bind(s, name, word_size(double)).frame[earlier] == s.frame[earlier],
        bind(s, name, word_size(double)).scope == s.scope.push(name),
{
    let i = choose|i: int| 0 <= i < s.scope.len() && s.scope[i] == earlier;
    assert(s.frame[s.scope[i]] == slot(i + 1, double));
}

/// Binding a name that the current function has bound already takes no
/// slot: the table, the running offset and the names of the function stay
/// as they are, and so does all the rest of the state.
pub proof fn known_name_keeps_its_slot(s: GenState, name: Seq<char>, word: int)
    requires
        s.scope.contains(name),
    ensures
        bind(s, name, word) == s,
{
}

/// Where the walk comes to `mem` with a name behind it that the current
/// function has not bound yet, the name gets the next slot, strictly below
/// the slot of every name bound before in the same function.
pub proof fn declaration_lies_below(
    tokens: Seq<TokenModel>,
    double: bool,
    n: nat,
    earlier: Seq<char>,
)
    requires
        0 <= state_after(tokens, double, n).cursor < tokens.len(),
        tokens[state_after(tokens, double, n).cursor] is Identifier,
        keyword_of(tokens[state_after(tokens, double, n).cursor]->Identifier_0) == Keyword::Mem,
        identifier_at(tokens, state_after(tokens, double, n).cursor + 1) is Some,
        !state_after(tokens, double, n).scope.contains(
            identifier_at(tokens, state_after(tokens, double, n).cursor + 1)->0,
        ),
        state_after(tokens, double, n).scope.contains(earlier),
    ensures
        ({
            let before = state_after(tokens, double, n);
            let after = state_after(tokens, double, n + 1);
            let name = identifier_at(tokens, before.cursor + 1)->0;
            &&& after.frame.contains_key(name)
            &&& after.frame[name] == before.offset - word_size(double)
            &&& after.frame[name] < before.frame[earlier]
            &&& after.scope == before.scope.push(name)
        }),
{
    let before = state_after(tokens, double, n);
    lemma_state_after_sound(tokens, double, n);
    new_slot_lies_below(before, identifier_at(tokens, before.cursor + 1)->0, double, earlier);
}

/// Where the walk comes to `mem` with a name behind it that the current
/// function has bound already, no slot is taken: the table, the running
/// offset and the names of the function stay as they are.
pub proof fn redeclaration_takes_no_slot(tokens: Seq<TokenModel>, double: bool, n: nat)
    requires
        0 <= state_after(tokens, double, n).cursor < tokens.len(),
        tokens[state_after(tokens, double, n).cursor] is Identifier,
        keyword_of(tokens[state_after(tokens, double, n).cursor]->Identifier_0) == Keyword::Mem,
        identifier_at(tokens, state_after(tokens, double, n).cursor + 1) is Some,
        state_after(tokens, double, n).scope.contains(
            identifier_at(tokens, state_after(tokens, double, n).cursor + 1)->0,
        ),
    ensures
        state_after(tokens, double, n + 1).frame == state_after(tokens, double, n).frame,
        state_after(tokens, double, n + 1).offset == state_after(tokens, double, n).offset,
        state_after(tokens, double, n + 1).scope == state_after(tokens, double, n).scope,
{
}

/// Where the walk comes to `mem` with a new name and a number behind it, the
/// number is stored one word below the slots that the function has taken so
/// far: the `k`-th name of a function is stored `k` words below the frame base.
pub proof fn declaration_stores_into_its_slot(tokens: Seq<TokenModel>, double: bool, n: nat)
    requires
        0 <= state_after(tokens, double, n).cursor < tokens.len(),
        tokens[state_after(tokens, double, n).cursor] is Identifier,
        keyword_of(tokens[state_after(tokens, double, n).cursor]->Identifier_0) == Keyword::Mem,
        identifier_at(tokens, state_after(tokens, double, n).cursor + 1) is Some,
        !state_after(tokens, double, n).scope.contains(
            identifier_at(tokens, state_after(tokens, double, n).cursor + 1)->0,
        ),
        number_at(tokens, state_after(tokens, double, n).cursor + 2) is Some,
    ensures
        ({
            let before = state_after(tokens, double, n);
            let after = state_after(tokens, double, n + 1);
            let digits = number_at(tokens, before.cursor + 2)->0;
            after.output == before.output + (load_immediate("rax"@, digits) + store_slot(
                -((before.scope.len() + 1) * word_size(double)),
            ))
        }),
{
    lemma_state_after_sound(tokens, double, n);
}

/// The notes on the parameters at `from..to`, where they take the first
/// slots of the frame in their order.
pub open spec fn parameter_notes(
    tokens: Seq<TokenModel>,
    from: int,
    to: int,
    double: bool,
) -> Seq<char>
    decreases to - from,
{
    if from >= to {
        Seq::<char>::empty()
    } else {
        parameter_notes(tokens, from, to - 1, double) + parameter_note(
            tokens[to - 1]->Identifier_0,
            -((to - from) * word_size(double)),
        )
    }
}

proof fn lemma_bind_distinct_parameters(
    s: GenState,
    tokens: Seq<TokenModel>,
    from: int,
    to: int,
    double: bool,
)
    requires
        0 <= from <= to <= tokens.len(),
        sound(s, double),
        s.scope.len() == 0,
        forall|a: int| from <= a < to ==> (#[trigger] tokens[a]) is Identifier,
        forall|a: int, b: int| from <= a < b < to ==> #[trigger] tokens[a] != #[trigger] tokens[b],
    ensures
        ({
            let t = bind_parameters(s, tokens, from, to, word_size(double));
            &&& sound(t, double)
            &&& t.scope.len() == to - from
            &&& forall|a: int| from <= a < to ==> #[trigger] t.scope[a - from] == tokens[a]->Identifier_0
            &&& t.output == s.output + parameter_notes(tokens, from, to, double)
        }),
    decreases to - from,
{
    let word = word_size(double);
    if from < to {
        lemma_bind_distinct_parameters(s, tokens, from, to - 1, double);
        let before = bind_parameters(s, tokens, from, to - 1, word);
        let name = tokens[to - 1]->Identifier_0;
        assert(identifier_at(tokens, to - 1) == Some(name));
        if before.scope.contains(name) {
            let i = choose|i: int| 0 <= i < before.scope.len() && before.scope[i] == name;
            assert(before.scope[(i + from) - from] == tokens[i + from]->Identifier_0);
            assert(tokens[i + from] != tokens[to - 1]);
            assert(false);
        }
        lemma_bind_sound(before, name, double);
        let t = bind_parameters(s, tokens, from, to, word);
        assert(t.scope == before.scope.push(name));
        assert forall|a: int| from <= a < to implies #[trigger] t.scope[a - from]
            == tokens[a]->Identifier_0 by {
            if a < to - 1 {
                assert(before.scope[a - from] == tokens[a]->Identifier_0);
            }
        }
        assert(t.frame[name] == -((to - from) * word));
        assert(t.output =~= s.output + parameter_notes(tokens, from, to, double));
    } else {
        assert(s.output + Seq::<char>::empty() =~= s.output);
    }
}

/// Where the walk comes to the start of a function whose parameters are
/// all named differently, they take the first slots in their order: the
/// `k`-th parameter sits `k` words below the frame base, and the notes on
/// them say so.
pub proof fn parameters_take_the_first_slots(
    tokens: Seq<TokenModel>,
    double: bool,
    n: nat,
    k: int,
)
    requires
        0 <= state_after(tokens, double, n).cursor < tokens.len(),
        tokens[state_after(tokens, double, n).cursor] is Identifier,
        keyword_of(tokens[state_after(tokens, double, n).cursor]->Identifier_0) == Keyword::Plain,
        token_at(tokens, identifiers_end(tokens, state_after(tokens, double, n).cursor + 1))
            == Some(TokenModel::BraceOpen),
        forall|a: int, b: int|
            state_after(tokens, double, n).cursor < a < b < identifiers_end(
                tokens,
                state_after(tokens, double, n).cursor + 1,
            ) ==> #[trigger] tokens[a] != #[trigger] tokens[b],
        state_after(tokens, double, n).cursor < k < identifiers_end(
            tokens,
            state_after(tokens, double, n).cursor + 1,
        ),
    ensures
        ({
            let before = state_after(tokens, double, n);
            let after = state_after(tokens, double, n + 1);
            let end = identifiers_end(tokens, before.cursor + 1);
            let name = tokens[before.cursor]->Identifier_0;
            &&& tokens[k] is Identifier
            &&& after.frame.contains_key(tokens[k]->Identifier_0)
            &&& after.frame[tokens[k]->Identifier_0] == -((k - before.cursor) * word_size(double))
            &&& after.scope.len() == end - before.cursor - 1
            &&& after.offset == -((end - before.cursor - 1) * word_size(double))
            &&& after.output == before.output + prologue(name) + parameter_notes(
                tokens,
                before.cursor + 1,
                end,
                double,
            )
        }),
{
    let before = state_after(tokens, double, n);
    let end = identifiers_end(tokens, before.cursor + 1);
    let name = tokens[before.cursor]->Identifier_0;
    lemma_state_after_sound(tokens, double, n);
    lemma_identifiers_run(tokens, before.cursor + 1);
    let entered = enter_function(before, name);
    lemma_bind_distinct_parameters(entered, tokens, before.cursor + 1, end, double);
    let bound = bind_parameters(entered, tokens, before.cursor + 1, end, word_size(double));
    assert(bound.scope[k - (before.cursor + 1)] == tokens[k]->Identifier_0);
    assert(bound.frame[bound.scope[k - (before.cursor + 1)]] == slot(
        k - (before.cursor + 1) + 1,
        double,
    ));
}

proof fn lemma_identifiers_run(tokens: Seq<TokenModel>, from: int)
    requires
        0 <= from <= tokens.len(),
    ensures
        from <= identifiers_end(tokens, from) <= tokens.len(),
        forall|a: int| from <= a < identifiers_end(tokens, from) ==> (#[trigger] tokens[a]) is Identifier,
    decreases tokens.len() - from,
{
    if from < tokens.len() && tokens[from] is Identifier {
        lemma_identifiers_run(tokens, from + 1);
    }
}

/// Only a declaration and the start of a function take slots. Any other
/// step, arithmetic that stores into a known name among them, leaves the
/// table, the running offset and the names of the current function as they
/// were.
pub proof fn only_binding_takes_slots(tokens: Seq<TokenModel>, word: int, s: GenState)
    requires
        0 <= s.cursor < tokens.len(),
        !(tokens[s.cursor] is Identifier && (keyword_of(tokens[s.cursor]->Identifier_0)
            == Keyword::Mem || keyword_of(tokens[s.cursor]->Identifier_0) == Keyword::Plain)),
    ensures
        step(tokens, word, s).frame == s.frame,
        step(tokens, word, s).offset == s.offset,
        step(tokens, word, s).scope == s.scope,
{
}

/// In every state that the walk passes through, the names of the current
/// function are numbered: the one bound as the `k`-th sits `k` words below
/// the frame base, and the running offset is that of the last.
pub proof fn slots_are_numbered(tokens: Seq<TokenModel>, double: bool, n: nat, i: int)
    requires
        0 <= i < state_after(tokens, double, n).scope.len(),
    ensures
        ({
            let s = state_after(tokens, double, n);
            &&& s.frame.contains_key(s.scope[i])
            &&& s.frame[s.scope[i]] == -((i + 1) * word_size(double))
            &&& s.offset == -(s.scope.len() * word_size(double))
        }),
{
    lemma_state_after_sound(tokens, double, n);
    let s = state_after(tokens, double, n);
    assert(s.frame[s.scope[i]] == slot(i + 1, double));
}

/// The frame is ordered in every state that the walk passes through.
pub proof fn frame_stays_ordered(tokens: Seq<TokenModel>, double: bool, n: nat)
    ensures
        frame_ordered(state_after(tokens, double, n), double),
{
    lemma_state_after_sound(tokens, double, n);
}

/// At no point of the walk have more loop-end labels been written than loops
/// were opened, nor more if-end labels than conditionals were opened.
pub proof fn ends_never_exceed_opens(tokens: Seq<TokenModel>, double: bool, n: nat)
    ensures
        state_after(tokens, double, n).loops_closed <= state_after(tokens, double, n).loops_opened,
        state_after(tokens, double, n).ifs_closed <= state_after(tokens, double, n).ifs_opened,
{
    lemma_state_after_sound(tokens, double, n);
}

/// A closing brace that finds neither a loop nor a conditional open writes
/// nothing and counts nothing.
pub proof fn unmatched_close_writes_nothing(tokens: Seq<TokenModel>, word: int, s: GenState)
    requires
        0 <= s.cursor < tokens.len(),
        tokens[s.cursor] == TokenModel::BraceClose,
        s.loops.len() == 0,
        s.ifs.len() == 0,
    ensures
        step(tokens, word, s).output == s.output,
        step(tokens, word, s).loops_closed == s.loops_closed,
        step(tokens, word, s).ifs_closed == s.ifs_closed,
{
}

proof fn lemma_bind_parameters_keep(
    s: GenState,
    tokens: Seq<TokenModel>,
    from: int,
    to: int,
    word: int,
    name: Seq<char>,
)
    requires
        s.frame.contains_key(name),
    ensures
        bind_parameters(s, tokens, from, to, word).frame.contains_key(name),
    decreases to - from,
{
    if from < to {
        lemma_bind_parameters_keep(s, tokens, from, to - 1, word, name);
    }
}

/// The frame offset table never shrinks: a step may bind a name anew, but
/// no name leaves the table.
pub proof fn table_never_forgets(
    tokens: Seq<TokenModel>,
    word: int,
    s: GenState,
    name: Seq<char>,
)
    requires
        0 <= s.cursor < tokens.len(),
        s.frame.contains_key(name),
    ensures
        step(tokens, word, s).frame.contains_key(name),
{
    match tokens[s.cursor] {
        TokenModel::Identifier(called) => {
            if keyword_of(called) == Keyword::Plain {
                lemma_bind_parameters_keep(
                    enter_function(s, called),
                    tokens,
                    s.cursor + 1,
                    identifiers_end(tokens, s.cursor + 1),
                    word,
                    name,
                );
            }
        },
        _ => {},
    }
}

/// The label counter never falls, and no step raises it by more than one.
pub proof fn counter_never_falls(tokens: Seq<TokenModel>, word: int, s: GenState)
    requires
        0 <= s.cursor < tokens.len(),
    ensures
        s.counter <= step(tokens, word, s).counter <= s.counter + 1,
{
    match tokens[s.cursor] {
        TokenModel::Identifier(called) => {
            if keyword_of(called) == Keyword::Plain {
                lemma_bind_parameters_cursor(
                    enter_function(s, called),
                    tokens,
                    s.cursor + 1,
                    identifiers_end(tokens, s.cursor + 1),
                    word,
                );
            }
        },
        _ => {},
    }
}

/// The `i`-th name of a function with `m` parameters, counted from 0: a
/// parameter for `i < m`, the name of a declaration for the others.
pub open spec fn name_at(tokens: Seq<TokenModel>, m: int, i: int) -> Seq<char> {
    if i < m {
        tokens[1 + i]->Identifier_0
    } else {
        tokens[m + 3 + 4 * (i - m)]->Identifier_0
    }
}

/// Whether the `j`-th declaration behind the opening brace of a function
/// with `m` parameters reads `mem <name> <number> ;`.
pub open spec fn declares(tokens: Seq<TokenModel>, m: int, j: int) -> bool {
    let at = m + 2 + 4 * j;
    &&& tokens[at] is Identifier
    &&& keyword_of(tokens[at]->Identifier_0) == Keyword::Mem
    &&& tokens[at + 1] is Identifier
    &&& tokens[at + 2] is Number
    &&& tokens[at + 3] == TokenModel::SemiColon
}

/// Whether the stream is one function with `m` parameters and `k`
/// declarations with a value each, all of them named differently:
/// `f p1 .. pm { mem n1 v1 ; .. mem nk vk ;`.
pub open spec fn function_with_declarations(tokens: Seq<TokenModel>, m: int, k: int) -> bool {
    &&& 0 <= m
    &&& 0 <= k
    &&& tokens.len() == m + 2 + 4 * k
    &&& tokens[0] is Identifier
    &&& keyword_of(tokens[0]->Identifier_0) == Keyword::Plain
    &&& forall|i: int| 1 <= i <= m ==> (#[trigger] tokens[i]) is Identifier
    &&& tokens[m + 1] == TokenModel::BraceOpen
    &&& forall|j: int| 0 <= j < k ==> #[trigger] declares(tokens, m, j)
    &&& forall|a: int, b: int|
        0 <= a < b < m + k ==> #[trigger] name_at(tokens, m, a) != #[trigger] name_at(tokens, m, b)
}

proof fn lemma_identifiers_end_at(tokens: Seq<TokenModel>, from: int, at: int)
    requires
        0 <= from <= at < tokens.len(),
        forall|i: int| from <= i < at ==> (#[trigger] tokens[i]) is Identifier,
        !(tokens[at] is Identifier),
    ensures
        identifiers_end(tokens, from) == at,
    decreases at - from,
{
    if from < at {
        lemma_identifiers_end_at(tokens, from + 1, at);
    }
}

proof fn lemma_function_walk(tokens: Seq<TokenModel>, double: bool, m: int, k: int, j: int)
    requires
        function_with_declarations(tokens, m, k),
        0 <= j <= k,
    ensures
        ({
            let s = state_after(tokens, double, (1 + 2 * j) as nat);
            &&& sound(s, double)
            &&& s.cursor == m + 2 + 4 * j
            &&& s.scope.len() == m + j
            &&& forall|i: int| 0 <= i < m + j ==> #[trigger] s.scope[i] == name_at(tokens, m, i)
        }),
    decreases j,
{
    let word = word_size(double);
    if j == 0 {
        let start = state_after(tokens, double, 0);
        assert(start == initial());
        assert(state_after(tokens, double, 1) == step(tokens, word, start));
        lemma_identifiers_end_at(tokens, 1, m + 1);
        let name = tokens[0]->Identifier_0;
        let entered = enter_function(start, name);
        assert forall|a: int, b: int| 1 <= a < b < m + 1 implies #[trigger] tokens[a]
            != #[trigger] tokens[b] by {
            assert(name_at(tokens, m, a - 1) != name_at(tokens, m, b - 1));
        }
        lemma_bind_distinct_parameters(entered, tokens, 1, m + 1, double);
        let s = state_after(tokens, double, 1);
        assert forall|i: int| 0 <= i < m implies #[trigger] s.scope[i] == name_at(tokens, m, i) by {
            assert(s.scope[(i + 1) - 1] == tokens[i + 1]->Identifier_0);
        }
    } else {
        lemma_function_walk(tokens, double, m, k, j - 1);
        let before = state_after(tokens, double, (1 + 2 * (j - 1)) as nat);
        let between = state_after(tokens, double, (2 + 2 * (j - 1)) as nat);
        let s = state_after(tokens, double, (1 + 2 * j) as nat);
        assert(declares(tokens, m, j - 1));
        let name = name_at(tokens, m, m + j - 1);
        assert(identifier_at(tokens, before.cursor + 1) == Some(name));
        if before.scope.contains(name) {
            let i = choose|i: int| 0 <= i < before.scope.len() && before.scope[i] == name;
            assert(before.scope[i] == name_at(tokens, m, i));
            assert(name_at(tokens, m, i) != name_at(tokens, m, m + j - 1));
            assert(false);
        }
        assert(between == step(tokens, word, before));
        lemma_bind_sound(before, name, double);
        lemma_step_keeps_sound(tokens, double, before);
        assert(between.scope == before.scope.push(name));
        assert(between.cursor == m + 2 + 4 * (j - 1) + 3);
        assert(s == step(tokens, word, between));
        lemma_step_keeps_sound(tokens, double, between);
        assert(s.scope == between.scope);
        assert forall|i: int| 0 <= i < m + j implies #[trigger] s.scope[i] == name_at(tokens, m, i) by {
            if i < m + j - 1 {
                assert(before.scope[i] == name_at(tokens, m, i));
            }
        }
    }
}

/// The frame of a function with `m` parameters and `k` declarations, all
/// named differently: the `i`-th parameter sits `i` words below the frame
/// base, the `j`-th declaration `m + j` words below it (both counted from
/// 1), and the value of the declaration is stored there.
pub proof fn function_frame_is_laid_out(
    tokens: Seq<TokenModel>,
    double: bool,
    m: int,
    k: int,
    j: int,
)
    requires
        function_with_declarations(tokens, m, k),
        0 <= j < k,
    ensures
        ({
            let before = state_after(tokens, double, (1 + 2 * j) as nat);
            let after = state_after(tokens, double, (2 + 2 * j) as nat);
            let digits = tokens[m + 4 + 4 * j]->Number_0;
            &&& before.cursor == m + 2 + 4 * j
            &&& after.output == before.output + (load_immediate("rax"@, digits) + store_slot(
                -((m + j + 1) * word_size(double)),
            ))
            &&& after.frame[name_at(tokens, m, m + j)] == -((m + j + 1) * word_size(double))
            &&& forall|i: int|
                0 <= i < m ==> after.frame[#[trigger] name_at(tokens, m, i)] == -((i + 1)
                    * word_size(double))
        }),
{
    let word = word_size(double);
    lemma_function_walk(tokens, double, m, k, j);
    let before = state_after(tokens, double, (1 + 2 * j) as nat);
    let after = state_after(tokens, double, (2 + 2 * j) as nat);
    assert(declares(tokens, m, j));
    let name = name_at(tokens, m, m + j);
    assert(identifier_at(tokens, before.cursor + 1) == Some(name));
    if before.scope.contains(name) {
        let i = choose|i: int| 0 <= i < before.scope.len() && before.scope[i] == name;
        assert(before.scope[i] == name_at(tokens, m, i));
        assert(name_at(tokens, m, i) != name_at(tokens, m, m + j));
        assert(false);
    }
    assert(after == step(tokens, word, before));
    lemma_bind_sound(before, name, double);
    assert forall|i: int| 0 <= i < m implies after.frame[#[trigger] name_at(tokens, m, i)] == -((i
        + 1) * word) by {
        assert(before.scope[i] == name_at(tokens, m, i));
        assert(before.frame[before.scope[i]] == slot(i + 1, double));
        assert(name_at(tokens, m, i) != name_at(tokens, m, m + j));
    }
}

} // verus!
