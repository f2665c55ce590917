use vstd::prelude::*;
use vstd::hash_map::StringHashMap;
use crate::emit::{
    epilogue, import_note, jump_if_zero, jump_to, label_line, label_text, load_immediate,
    parameter_note, push_import_note, push_jump_if_zero, push_jump_to, push_jump_to_label,
    push_label_line, push_load_immediate, push_load_slot, push_parameter_note, push_prologue,
    push_store_slot, push_string_data, push_verbatim_word, store_slot, string_data, LabelKind,
};
use crate::error::TranslateError;
use crate::model::{
    advance, assembly, bind, bind_parameters, bounded, close_if, close_loop, emit,
    enter_function, identifiers_end, initial, instruction, is_arithmetic, keyword_of,
    lemma_bind_keeps_slots, lemma_bind_parameters_cursor, lemma_step_keeps_bounded, load_operand,
    operator_of, reads_unbound, run, scope_has_slots, semicolon_from, slot_of, step, step_binary,
    step_brk, step_close, step_imp, step_jump, step_loop, step_mem, step_number, step_otherwise,
    step_plain, step_ref, step_ret, step_string, step_then, step_verbatim, verbatim_text,
    word_size, GenState, Keyword, Operator,
};
use crate::text::{chars_of, spells};
use crate::token::{models, Token, TokenModel};

verus! {

/// The generator at work: the state of the model, held in machine values.
struct Generator {
    cursor: usize,
    offset: i128,
    frame: StringHashMap<i128>,
    /// The names that the current function has bound; what they map to is
    /// of no account.
    names: StringHashMap<bool>,
    counter: usize,
    loops: Vec<usize>,
    ifs: Vec<usize>,
    output: String,
    unbound: bool,
    shadow: Ghost<GenState>,
}

impl View for Generator {
    type V = GenState;

    closed spec fn view(&self) -> GenState {
        self.shadow@
    }
}

impl Generator {
    /// The machine values hold what the model's state says.
    closed spec fn agrees(&self) -> bool {
        let m = self.shadow@;
        &&& m.cursor == self.cursor
        &&& m.offset == self.offset
        &&& m.frame.dom() =~= self.frame@.dom()
        &&& forall|name: Seq<char>| #[trigger]
            self.frame@.contains_key(name) ==> m.frame[name] == self.frame@[name]
        &&& forall|name: Seq<char>|
            self.names@.contains_key(name) <==> #[trigger] m.scope.contains(name)
        &&& m.counter == self.counter
        &&& m.loops =~= self.loops@.map_values(|id: usize| id as nat)
        &&& m.ifs =~= self.ifs@.map_values(|id: usize| id as nat)
        &&& m.output == self.output@
        &&& m.unbound == self.unbound
    }

    fn new() -> (g: Generator)
        ensures
            g.agrees(),
            g@ == initial(),
    {
        Generator {
            cursor: 0,
            offset: 0,
            frame: StringHashMap::new(),
            names: StringHashMap::new(),
            counter: 0,
            loops: Vec::new(),
            ifs: Vec::new(),
            output: String::new(),
            unbound: false,
            shadow: Ghost(initial()),
        }
    }

    /// Moves the cursor `by` tokens on, but not past the end.
    fn advance(&mut self, by: usize, len: usize)
        requires
            old(self).agrees(),
            old(self)@.cursor <= len,
        ensures
            final(self).agrees(),
            final(self)@ == advance(old(self)@, by as int, len as int),
    {
        if by <= len - self.cursor {
            self.cursor = self.cursor + by;
        } else {
            self.cursor = len;
        }
        self.shadow = Ghost(advance(self.shadow@, by as int, len as int));
    }

    /// The frame slot of an operand, where it is a bound name.
    fn slot(&self, operand: &Token) -> (found: Option<i128>)
        requires
            self.agrees(),
        ensures
            match found {
                Some(offset) => slot_of(self@, operand@) == Some(offset as int),
                None => slot_of(self@, operand@) is None,
            },
    {
        match operand {
            Token::Identifier(name) => {
                match self.frame.get(name.as_str()) {
                    Some(offset) => Some(*offset),
                    None => None,
                }
            },
            _ => None,
        }
    }

    /// Loads an operand into `reg`.
    fn load(&mut self, operand: &Token, reg: &str)
        requires
            old(self).agrees(),
        ensures
            final(self).agrees(),
            final(self)@ == load_operand(old(self)@, operand@, reg@),
    {
        match operand {
            Token::Identifier(name) => {
                match self.slot(operand) {
                    Some(offset) => {
                        push_load_slot(&mut self.output, reg, offset);
                    },
                    None => {
                        self.unbound = true;
                    },
                }
            },
            Token::Number(digits) => {
                push_load_immediate(&mut self.output, reg, digits.as_str());
            },
            _ => {},
        }
        proof {
            assert(old(self)@.output + Seq::<char>::empty() =~= old(self)@.output);
        }
        self.shadow = Ghost(load_operand(self.shadow@, operand@, reg@));
    }

    /// Binds `name`, and tells its slot: the next free one for a name that
    /// is new to the current function, the one it has for any other.
    fn bind(&mut self, name: &String, word: i128) -> (slot: i128)
        requires
            old(self).agrees(),
            0 < word <= 8,
            0 <= -old(self)@.offset <= 8 * usize::MAX,
            scope_has_slots(old(self)@),
        ensures
            final(self).agrees(),
            final(self)@ == bind(old(self)@, name@, word as int),
            scope_has_slots(final(self)@),
            slot == final(self)@.frame[name@],
    {
        proof {
            lemma_bind_keeps_slots(self@, name@, word as int);
        }
        if self.names.contains_key(name.as_str()) {
            match self.frame.get(name.as_str()) {
                Some(slot) => *slot,
                None => {
                    // Cannot happen: a name of the current function has its slot.
                    proof {
                        assert(self@.scope.contains(name@));
                        assert(false);
                    }
                    self.offset
                },
            }
        } else {
            self.offset = self.offset - word;
            self.frame.insert(name.clone(), self.offset);
            self.names.insert(name.clone(), true);
            proof {
                let m = self.shadow@;
                assert forall|known: Seq<char>|
                    self.names@.contains_key(known) <==> #[trigger] m.scope.push(name@).contains(
                        known,
                    ) by {
                    if m.scope.contains(known) {
                        let i = choose|i: int| 0 <= i < m.scope.len() && m.scope[i] == known;
                        assert(m.scope.push(name@)[i] == known);
                    }
                    assert(m.scope.push(name@)[m.scope.len() as int] == name@);
                }
            }
            self.shadow = Ghost(bind(self.shadow@, name@, word as int));
            self.offset
        }
    }

    /// `ret`.
    fn do_ret(&mut self, tokens: &Vec<Token>)
        requires
            old(self).agrees(),
            old(self)@.cursor < tokens.len(),
        ensures
            final(self).agrees(),
            final(self)@ == step_ret(models(tokens@), old(self)@),
    {
        let i = self.cursor;
        if i + 1 < tokens.len() {
            self.load(&tokens[i + 1], "rax");
        }
        self.output.append("    leave\n    ret\n");
        self.shadow = Ghost(emit(self.shadow@, epilogue()));
        self.advance(2, tokens.len());
    }

    /// `mem`.
    fn do_mem(&mut self, tokens: &Vec<Token>, word: i128)
        requires
            old(self).agrees(),
            old(self)@.cursor < tokens.len(),
            bounded(old(self)@, tokens.len() as int),
            0 < word <= 8,
        ensures
            final(self).agrees(),
            final(self)@ == step_mem(models(tokens@), word as int, old(self)@),
    {
        let i = self.cursor;
        if i + 1 < tokens.len() {
            if let Token::Identifier(name) = &tokens[i + 1] {
                let slot = self.bind(name, word);
                if i + 2 < tokens.len() {
                    if let Token::Number(digits) = &tokens[i + 2] {
                        push_load_immediate(&mut self.output, "rax", digits.as_str());
                        push_store_slot(&mut self.output, slot);
                        proof {
                            let text = load_immediate("rax"@, digits@) + store_slot(slot as int);
                            assert(self.output@ =~= self.shadow@.output + text);
                            self.shadow@ = emit(self.shadow@, text);
                        }
                        self.advance(3, tokens.len());
                        return ;
                    }
                }
                self.advance(2, tokens.len());
                return ;
            }
        }
        self.advance(1, tokens.len());
    }

    /// `ref`.
    fn do_ref(&mut self, tokens: &Vec<Token>)
        requires
            old(self).agrees(),
            old(self)@.cursor < tokens.len(),
        ensures
            final(self).agrees(),
            final(self)@ == step_ref(models(tokens@), old(self)@),
    {
        let i = self.cursor;
        if i + 1 < tokens.len() {
            if let Token::Identifier(name) = &tokens[i + 1] {
                self.load(&tokens[i + 1], "rax");
                self.advance(2, tokens.len());
                return ;
            }
        }
        self.advance(1, tokens.len());
    }

    /// `loop`.
    fn do_loop(&mut self, tokens: &Vec<Token>)
        requires
            old(self).agrees(),
            old(self)@.cursor < tokens.len(),
            bounded(old(self)@, tokens.len() as int),
        ensures
            final(self).agrees(),
            final(self)@ == step_loop(models(tokens@), old(self)@),
    {
        let id = self.counter;
        self.counter = id + 1;
        self.loops.push(id);
        push_label_line(&mut self.output, LabelKind::LoopStart, id);
        proof {
            let s = self.shadow@;
            self.shadow@ = GenState {
                counter: s.counter + 1,
                loops: s.loops.push(s.counter),
                output: s.output + label_line(
                    label_text(LabelKind::LoopStart, s.counter),
                ),
                labels: s.labels.push((LabelKind::LoopStart, s.counter)).push(
                    (LabelKind::LoopEnd, s.counter),
                ),
                loops_opened: s.loops_opened + 1,
                ..s
            };
        }
        self.advance(1, tokens.len());
    }

    /// `brk`.
    fn do_brk(&mut self, tokens: &Vec<Token>)
        requires
            old(self).agrees(),
            old(self)@.cursor < tokens.len(),
        ensures
            final(self).agrees(),
            final(self)@ == step_brk(models(tokens@), old(self)@),
    {
        let open = self.loops.len();
        if open > 0 {
            let id = self.loops[open - 1];
            push_jump_to_label(&mut self.output, LabelKind::LoopEnd, id);
            proof {
                self.shadow@ = emit(
                    self.shadow@,
                    jump_to(label_text(LabelKind::LoopEnd, id as nat)),
                );
            }
        }
        self.advance(1, tokens.len());
    }

    /// `jump`.
    fn do_jump(&mut self, tokens: &Vec<Token>)
        requires
            old(self).agrees(),
            old(self)@.cursor < tokens.len(),
        ensures
            final(self).agrees(),
            final(self)@ == step_jump(models(tokens@), old(self)@),
    {
        let i = self.cursor;
        if i + 1 < tokens.len() {
            if let Token::Identifier(label) = &tokens[i + 1] {
                push_jump_to(&mut self.output, label.as_str());
                proof {
                    self.shadow@ = emit(self.shadow@, jump_to(label@));
                }
                self.advance(2, tokens.len());
                return ;
            }
        }
        self.advance(1, tokens.len());
    }

    /// `imp`.
    fn do_imp(&mut self, tokens: &Vec<Token>)
        requires
            old(self).agrees(),
            old(self)@.cursor < tokens.len(),
        ensures
            final(self).agrees(),
            final(self)@ == step_imp(models(tokens@), old(self)@),
    {
        let i = self.cursor;
        if i + 1 < tokens.len() {
            if let Token::Identifier(path) = &tokens[i + 1] {
                push_import_note(&mut self.output, path.as_str());
                proof {
                    self.shadow@ = emit(self.shadow@, import_note(path@));
                }
                self.advance(2, tokens.len());
                return ;
            }
        }
        self.advance(1, tokens.len());
    }

    /// `asm ... ;`.
    fn do_verbatim(&mut self, tokens: &Vec<Token>)
        requires
            old(self).agrees(),
            old(self)@.cursor < tokens.len(),
        ensures
            final(self).agrees(),
            final(self)@ == step_verbatim(models(tokens@), old(self)@),
    {
        let i = self.cursor;
        let ghost toks = models(tokens@);
        let mut words = String::new();
        let mut j: usize = i + 1;
        while j < tokens.len() && !is_semicolon(&tokens[j])
            invariant
                i + 1 <= j <= tokens.len(),
                toks == models(tokens@),
                words@ == verbatim_text(toks, i + 1, j as int),
                semicolon_from(toks, j as int) == semicolon_from(toks, i + 1),
            decreases tokens.len() - j,
        {
            match &tokens[j] {
                Token::Identifier(word) => push_verbatim_word(&mut words, word.as_str()),
                Token::Number(word) => push_verbatim_word(&mut words, word.as_str()),
                _ => {
                    proof {
                        assert(words@ + Seq::<char>::empty() =~= words@);
                    }
                },
            }
            j += 1;
        }
        words.append("\n");
        self.output.append(words.as_str());
        self.shadow = Ghost(emit(self.shadow@, words@));
        if j < tokens.len() {
            self.advance(j - i + 1, tokens.len());
        } else {
            self.advance(j - i, tokens.len());
        }
    }

    /// Any other identifier.
    fn do_plain(&mut self, tokens: &Vec<Token>, word: i128, name: &String)
        requires
            old(self).agrees(),
            old(self)@.cursor < tokens.len(),
            0 < word <= 8,
        ensures
            final(self).agrees(),
            final(self)@ == step_plain(models(tokens@), word as int, old(self)@, name@),
    {
        let i = self.cursor;
        let ghost toks = models(tokens@);
        let mut end: usize = i + 1;
        while end < tokens.len() && is_identifier(&tokens[end])
            invariant
                i + 1 <= end <= tokens.len(),
                toks == models(tokens@),
                identifiers_end(toks, end as int) == identifiers_end(toks, i + 1),
            decreases tokens.len() - end,
        {
            end += 1;
        }
        if end < tokens.len() && is_brace_open(&tokens[end]) {
            push_prologue(&mut self.output, name.as_str());
            self.offset = 0;
            self.names.clear();
            self.shadow = Ghost(enter_function(self.shadow@, name@));
            let ghost entered = self.shadow@;
            let mut k: usize = i + 1;
            while k < end
                invariant
                    i + 1 <= k <= end < tokens.len(),
                    toks == models(tokens@),
                    self.agrees(),
                    self@ == bind_parameters(entered, toks, i + 1, k as int, word as int),
                    0 <= -self@.offset <= 8 * (k - (i + 1)),
                    scope_has_slots(self@),
                    0 < word <= 8,
                decreases end - k,
            {
                if let Token::Identifier(parameter) = &tokens[k] {
                    let slot = self.bind(parameter, word);
                    push_parameter_note(&mut self.output, parameter.as_str(), slot);
                    proof {
                        self.shadow@ = emit(self.shadow@, parameter_note(parameter@, slot as int));
                    }
                }
                k += 1;
            }
            self.cursor = end + 1;
            proof {
                lemma_bind_parameters_cursor(
                    entered,
                    toks,
                    i + 1,
                    end as int,
                    word as int,
                );
                self.shadow@ = GenState { cursor: end + 1, ..self.shadow@ };
            }
        } else {
            self.advance(1, tokens.len());
        }
    }

    /// A binary operator.
    fn do_binary(&mut self, tokens: &Vec<Token>, op: Operator)
        requires
            old(self).agrees(),
            old(self)@.cursor < tokens.len(),
        ensures
            final(self).agrees(),
            final(self)@ == step_binary(models(tokens@), old(self)@, op),
    {
        let i = self.cursor;
        if i > 0 && i + 1 < tokens.len() {
            let target = self.slot(&tokens[i - 1]);
            self.load(&tokens[i - 1], "rax");
            self.load(&tokens[i + 1], "rbx");
            push_instruction(&mut self.output, op);
            self.shadow = Ghost(emit(self.shadow@, instruction(op)));
            if let Some(offset) = target {
                if arithmetic(op) {
                    push_store_slot(&mut self.output, offset);
                    self.shadow = Ghost(
                        emit(self.shadow@, store_slot(offset as int)),
                    );
                }
            }
            self.advance(2, tokens.len());
        } else {
            self.advance(1, tokens.len());
        }
    }

    /// `->`.
    fn do_then(&mut self, tokens: &Vec<Token>)
        requires
            old(self).agrees(),
            old(self)@.cursor < tokens.len(),
            bounded(old(self)@, tokens.len() as int),
        ensures
            final(self).agrees(),
            final(self)@ == step_then(models(tokens@), old(self)@),
    {
        let id = self.counter;
        self.counter = id + 1;
        self.ifs.push(id);
        push_jump_if_zero(&mut self.output, id);
        proof {
            let s = self.shadow@;
            self.shadow@ = GenState {
                counter: s.counter + 1,
                ifs: s.ifs.push(s.counter),
                output: s.output + jump_if_zero(
                    label_text(LabelKind::IfEnd, s.counter),
                ),
                labels: s.labels.push((LabelKind::IfEnd, s.counter)),
                ifs_opened: s.ifs_opened + 1,
                ..s
            };
        }
        self.advance(1, tokens.len());
    }

    /// `!->`.
    fn do_otherwise(&mut self, tokens: &Vec<Token>)
        requires
            old(self).agrees(),
            old(self)@.cursor < tokens.len(),
        ensures
            final(self).agrees(),
            final(self)@ == step_otherwise(models(tokens@), old(self)@),
    {
        match self.ifs.pop() {
            Some(id) => {
                push_jump_to_label(&mut self.output, LabelKind::IfEnd, id);
                proof {
                    let s = self.shadow@;
                    self.shadow@ = GenState {
                        ifs: s.ifs.drop_last(),
                        output: s.output + jump_to(
                            label_text(LabelKind::IfEnd, s.ifs.last()),
                        ),
                        ..s
                    };
                }
            },
            None => {},
        }
        self.advance(1, tokens.len());
    }

    /// A closing brace.
    fn do_close(&mut self, tokens: &Vec<Token>)
        requires
            old(self).agrees(),
            old(self)@.cursor < tokens.len(),
        ensures
            final(self).agrees(),
            final(self)@ == step_close(models(tokens@), old(self)@),
    {
        match self.loops.pop() {
            Some(id) => {
                push_label_line(&mut self.output, LabelKind::LoopEnd, id);
            },
            None => {},
        }
        self.shadow = Ghost(close_loop(self.shadow@));
        match self.ifs.pop() {
            Some(id) => {
                push_label_line(&mut self.output, LabelKind::IfEnd, id);
            },
            None => {},
        }
        self.shadow = Ghost(close_if(self.shadow@));
        self.advance(1, tokens.len());
    }

    /// A number that no operator took.
    fn do_number(&mut self, tokens: &Vec<Token>, digits: &String)
        requires
            old(self).agrees(),
            old(self)@.cursor < tokens.len(),
        ensures
            final(self).agrees(),
            final(self)@ == step_number(models(tokens@), old(self)@, digits@),
    {
        push_load_immediate(&mut self.output, "rax", digits.as_str());
        self.shadow = Ghost(emit(self.shadow@, load_immediate("rax"@, digits@)));
        self.advance(1, tokens.len());
    }

    /// A string literal.
    fn do_string(&mut self, tokens: &Vec<Token>, content: &String)
        requires
            old(self).agrees(),
            old(self)@.cursor < tokens.len(),
            bounded(old(self)@, tokens.len() as int),
        ensures
            final(self).agrees(),
            final(self)@ == step_string(models(tokens@), old(self)@, content@),
    {
        let id = self.counter;
        self.counter = id + 1;
        push_string_data(&mut self.output, id, content.as_str());
        proof {
            let s = self.shadow@;
            self.shadow@ = GenState {
                counter: s.counter + 1,
                output: s.output + string_data(
                    label_text(LabelKind::Text, s.counter),
                    content@,
                ),
                labels: s.labels.push((LabelKind::Text, s.counter)),
                ..s
            };
        }
        self.advance(1, tokens.len());
    }

    /// One step: what the token under the cursor asks for.
    fn step(&mut self, tokens: &Vec<Token>, word: i128)
        requires
            old(self).agrees(),
            old(self)@.cursor < tokens.len(),
            bounded(old(self)@, tokens.len() as int),
            0 < word <= 8,
        ensures
            final(self).agrees(),
            final(self)@ == step(models(tokens@), word as int, old(self)@),
    {
        match &tokens[self.cursor] {
            Token::Identifier(name) => {
                match keyword(name.as_str()) {
                    Keyword::Ret => self.do_ret(tokens),
                    Keyword::Mem => self.do_mem(tokens, word),
                    Keyword::Ref => self.do_ref(tokens),
                    Keyword::Loop => self.do_loop(tokens),
                    Keyword::Brk => self.do_brk(tokens),
                    Keyword::Jump => self.do_jump(tokens),
                    Keyword::Imp => self.do_imp(tokens),
                    Keyword::Verbatim => self.do_verbatim(tokens),
                    Keyword::Plain => self.do_plain(tokens, word, name),
                }
            },
            Token::Operation(text) => {
                let op = operator(text.as_str());
                match op {
                    Operator::Then => self.do_then(tokens),
                    Operator::Otherwise => self.do_otherwise(tokens),
                    Operator::Other => self.advance(1, tokens.len()),
                    _ => self.do_binary(tokens, op),
                }
            },
            Token::BraceClose => self.do_close(tokens),
            Token::Number(digits) => self.do_number(tokens, digits),
            Token::StringLiteral(content) => self.do_string(tokens, content),
            _ => self.advance(1, tokens.len()),
        }
    }

    /// Walks the whole stream.
    fn walk(tokens: &Vec<Token>, double: bool) -> (g: Generator)
        ensures
            g.agrees(),
            g@ == run(models(tokens@), word_size(double), initial()),
    {
        let word: i128 = if double { 8 } else { 4 };
        let ghost toks = models(tokens@);
        let mut g = Generator::new();
        while g.cursor < tokens.len()
            invariant
                toks == models(tokens@),
                word == word_size(double),
                g.agrees(),
                bounded(g@, tokens.len() as int),
                run(toks, word as int, g@) == run(toks, word as int, initial()),
            decreases tokens.len() - g@.cursor,
        {
            proof {
                lemma_step_keeps_bounded(toks, word as int, g@);
            }
            g.step(tokens, word);
        }
        g
    }
}

fn is_semicolon(token: &Token) -> (yes: bool)
    ensures
        yes == (token@ == TokenModel::SemiColon),
{
    match token {
        Token::SemiColon => true,
        _ => false,
    }
}

fn is_identifier(token: &Token) -> (yes: bool)
    ensures
        yes == (token@ is Identifier),
{
    match token {
        Token::Identifier(_) => true,
        _ => false,
    }
}

fn is_brace_open(token: &Token) -> (yes: bool)
    ensures
        yes == (token@ == TokenModel::BraceOpen),
{
    match token {
        Token::BraceOpen => true,
        _ => false,
    }
}

fn arithmetic(op: Operator) -> (yes: bool)
    ensures
        yes == is_arithmetic(op),
{
    match op {
        Operator::Add | Operator::Sub | Operator::Mul | Operator::Div => true,
        _ => false,
    }
}

/// Appends [`instruction`].
fn push_instruction(out: &mut String, op: Operator)
    ensures
        final(out)@ == old(out)@ + instruction(op),
{
    match op {
        Operator::Add => out.append("    add rax, rbx\n"),
        Operator::Sub => out.append("    sub rax, rbx\n"),
        Operator::Mul => out.append("    imul rax, rbx\n"),
        Operator::Div => out.append("    cqo\n    idiv rbx\n"),
        Operator::Equal => out.append("    cmp rax, rbx\n    sete al\n    movzx rax, al\n"),
        Operator::NotEqual => out.append("    cmp rax, rbx\n    setne al\n    movzx rax, al\n"),
        Operator::Less => out.append("    cmp rax, rbx\n    setl al\n    movzx rax, al\n"),
        Operator::Greater => out.append("    cmp rax, rbx\n    setg al\n    movzx rax, al\n"),
        Operator::LessEqual => out.append("    cmp rax, rbx\n    setle al\n    movzx rax, al\n"),
        Operator::GreaterEqual => out.append(
            "    cmp rax, rbx\n    setge al\n    movzx rax, al\n",
        ),
        _ => {
            proof {
                assert(old(out)@ + Seq::<char>::empty() =~= old(out)@);
            }
        },
    }
}

/// The keyword that `name` spells.
fn keyword(name: &str) -> (k: Keyword)
    ensures
        k == keyword_of(name@),
{
    let v = chars_of(name);
    if spells(&v, "ret") {
        Keyword::Ret
    } else if spells(&v, "mem") {
        Keyword::Mem
    } else if spells(&v, "ref") {
        Keyword::Ref
    } else if spells(&v, "loop") {
        Keyword::Loop
    } else if spells(&v, "brk") {
        Keyword::Brk
    } else if spells(&v, "jump") {
        Keyword::Jump
    } else if spells(&v, "imp") {
        Keyword::Imp
    } else if spells(&v, "asm") {
        Keyword::Verbatim
    } else {
        Keyword::Plain
    }
}

/// The operator that `text` spells.
fn operator(text: &str) -> (op: Operator)
    ensures
        op == operator_of(text@),
{
    let v = chars_of(text);
    if spells(&v, "+") {
        Operator::Add
    } else if spells(&v, "-") {
        Operator::Sub
    } else if spells(&v, "*") {
        Operator::Mul
    } else if spells(&v, "/") {
        Operator::Div
    } else if spells(&v, "==") {
        Operator::Equal
    } else if spells(&v, "!=") {
        Operator::NotEqual
    } else if spells(&v, "<") {
        Operator::Less
    } else if spells(&v, ">") {
        Operator::Greater
    } else if spells(&v, "<=") {
        Operator::LessEqual
    } else if spells(&v, ">=") {
        Operator::GreaterEqual
    } else if spells(&v, "->") {
        Operator::Then
    } else if spells(&v, "!->") {
        Operator::Otherwise
    } else {
        Operator::Other
    }
}

/// The assembly text for `tokens`, with frame slots of 8 bytes where
/// `double` is set and of 4 bytes where it is not. A name that was never
/// bound is read as holding nothing: its load is left out.
pub fn generate_asm_target(tokens: Vec<Token>, double: bool) -> (text: String)
    ensures
        text@ == assembly(models(tokens@), double),
{
    let g = Generator::walk(&tokens, double);
    g.output
}

/// As [`generate_asm_target`], but strict: where the walk reads a name that
/// was never bound, no text is returned.
pub fn generate_asm_strict(tokens: Vec<Token>, double: bool) -> (outcome: Result<
    String,
    TranslateError,
>)
    ensures
        match outcome {
            Ok(text) => !reads_unbound(models(tokens@), double) && text@ == assembly(
                models(tokens@),
                double,
            ),
            Err(e) => reads_unbound(models(tokens@), double) && e
                == TranslateError::UnboundIdentifier,
        },
{
    let g = Generator::walk(&tokens, double);
    if g.unbound {
        Err(TranslateError::UnboundIdentifier)
    } else {
        Ok(g.output)
    }
}

} // verus!
