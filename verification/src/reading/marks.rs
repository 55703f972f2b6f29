//! The words and marks that stand between the parts of what is written.

#[allow(unused_imports)]
use crate::ast::{self, BinOp};
#[allow(unused_imports)]
use crate::lexer;
#[allow(unused_imports)]
use crate::number::NumberModel;
#[allow(unused_imports)]
use crate::reading;
#[allow(unused_imports)]
use crate::spelling;
#[allow(unused_imports)]
use crate::token::SpecToken;
use vstd::prelude::*;

verus! {

// Each of these reads one piece of the text that holds the parts of a tree
// together.

/// A character that belongs to no name, no number and no longer symbol.
pub open spec fn quiet(c: char) -> bool {
    c == ' ' || c == '\n' || c == ';' || c == ',' || c == '(' || c == ')' || c == '<' || c == '>'
        || c == '}'
}

pub(crate) proof fn lemma_calm(s: Seq<char>, p: int, t: Seq<char>)
    requires
        reading::at(s, p, t),
        t.len() > 0,
        quiet(t[0]),
    ensures
        reading::calm(s, p),
{
    reading::at_char(s, p, t, 0);
}

pub(crate) proof fn mark_dot(m: NumberModel, s: Seq<char>, p: int)
    requires
        reading::at(s, p, "."@),
    ensures
        "."@.len() == 1,
        reading::reads(m, s, p, seq![SpecToken::Dot], p + 1),
{
    reveal_strlit(".");
    let t = "."@;
    reading::at_chars(s, p, t);
    reading::read_symbol(m, s, p, SpecToken::Dot);
}

pub(crate) proof fn word_if(m: NumberModel, s: Seq<char>, p: int)
    requires
        reading::at(s, p, "if "@),
    ensures
        "if "@.len() == 3,
        reading::reads(m, s, p, seq![SpecToken::Ident("if"@)], p + 3),
{
    reveal_strlit("if ");
    reveal_strlit("if");
    let t = "if "@;
    reading::at_chars(s, p, t);
    reading::at_part(s, p, t, 0, "if"@);
    reading::read_name(m, s, p, "if"@);
    reading::read_blank(m, s, p + 2);
    reading::join_right(m, s, p, seq![SpecToken::Ident("if"@)], p + 2, p + 3);
}

pub(crate) proof fn mark_open(m: NumberModel, s: Seq<char>, p: int)
    requires
        reading::at(s, p, " { "@),
    ensures
        " { "@.len() == 3,
        reading::calm(s, p),
        reading::reads(m, s, p, seq![SpecToken::LBrace], p + 3),
{
    reveal_strlit(" { ");
    let t = " { "@;
    reading::at_chars(s, p, t);
    reading::read_blank(m, s, p);
    reading::read_symbol(m, s, p + 1, SpecToken::LBrace);
    reading::join_left(m, s, p, p + 1, seq![SpecToken::LBrace], p + 2);
    reading::read_blank(m, s, p + 2);
    reading::join_right(m, s, p, seq![SpecToken::LBrace], p + 2, p + 3);
}

pub(crate) proof fn mark_else(m: NumberModel, s: Seq<char>, p: int)
    requires
        reading::at(s, p, " } else { "@),
    ensures
        " } else { "@.len() == 10,
        reading::calm(s, p),
        reading::reads(
            m,
            s,
            p,
            seq![SpecToken::RBrace, SpecToken::Ident("else"@), SpecToken::LBrace],
            p + 10,
        ),
{
    reveal_strlit(" } else { ");
    reveal_strlit("else");
    let t = " } else { "@;
    reading::at_chars(s, p, t);
    reading::read_blank(m, s, p);
    reading::read_symbol(m, s, p + 1, SpecToken::RBrace);
    reading::join_left(m, s, p, p + 1, seq![SpecToken::RBrace], p + 2);
    reading::read_blank(m, s, p + 2);
    reading::join_right(m, s, p, seq![SpecToken::RBrace], p + 2, p + 3);
    reading::at_part(s, p, t, 3, "else"@);
    reading::read_name(m, s, p + 3, "else"@);
    reading::join(m, s, p, seq![SpecToken::RBrace], p + 3, seq![SpecToken::Ident("else"@)], p + 7);
    assert(seq![SpecToken::RBrace] + seq![SpecToken::Ident("else"@)]
        =~= seq![SpecToken::RBrace, SpecToken::Ident("else"@)]);
    reading::read_blank(m, s, p + 7);
    reading::join_right(m, s, p, seq![SpecToken::RBrace, SpecToken::Ident("else"@)], p + 7, p + 8);
    reading::read_symbol(m, s, p + 8, SpecToken::LBrace);
    reading::join(
        m,
        s,
        p,
        seq![SpecToken::RBrace, SpecToken::Ident("else"@)],
        p + 8,
        seq![SpecToken::LBrace],
        p + 9,
    );
    assert(seq![SpecToken::RBrace, SpecToken::Ident("else"@)] + seq![SpecToken::LBrace]
        =~= seq![SpecToken::RBrace, SpecToken::Ident("else"@), SpecToken::LBrace]);
    reading::read_blank(m, s, p + 9);
    reading::join_right(
        m,
        s,
        p,
        seq![SpecToken::RBrace, SpecToken::Ident("else"@), SpecToken::LBrace],
        p + 9,
        p + 10,
    );
}

pub(crate) proof fn mark_close(m: NumberModel, s: Seq<char>, p: int)
    requires
        reading::at(s, p, " }"@),
    ensures
        " }"@.len() == 2,
        reading::calm(s, p),
        reading::reads(m, s, p, seq![SpecToken::RBrace], p + 2),
{
    reveal_strlit(" }");
    let t = " }"@;
    reading::at_chars(s, p, t);
    reading::read_blank(m, s, p);
    reading::read_symbol(m, s, p + 1, SpecToken::RBrace);
    reading::join_left(m, s, p, p + 1, seq![SpecToken::RBrace], p + 2);
}

pub(crate) proof fn mark_paren(m: NumberModel, s: Seq<char>, p: int)
    requires
        reading::at(s, p, "("@),
    ensures
        "("@.len() == 1,
        reading::calm(s, p),
        reading::reads(m, s, p, seq![SpecToken::LParen], p + 1),
{
    reveal_strlit("(");
    let t = "("@;
    reading::at_chars(s, p, t);
    reading::read_symbol(m, s, p, SpecToken::LParen);
}

pub(crate) proof fn mark_comma(m: NumberModel, s: Seq<char>, p: int)
    requires
        reading::at(s, p, ", "@),
    ensures
        ", "@.len() == 2,
        reading::calm(s, p),
        reading::reads(m, s, p, seq![SpecToken::Comma], p + 2),
{
    reveal_strlit(", ");
    let t = ", "@;
    reading::at_chars(s, p, t);
    reading::read_symbol(m, s, p, SpecToken::Comma);
    reading::read_blank(m, s, p + 1);
    reading::join_right(m, s, p, seq![SpecToken::Comma], p + 1, p + 2);
}

pub(crate) proof fn mark_end_paren(m: NumberModel, s: Seq<char>, p: int)
    requires
        reading::at(s, p, ")"@),
    ensures
        ")"@.len() == 1,
        reading::calm(s, p),
        reading::reads(m, s, p, seq![SpecToken::RParen], p + 1),
{
    reveal_strlit(")");
    let t = ")"@;
    reading::at_chars(s, p, t);
    reading::read_symbol(m, s, p, SpecToken::RParen);
}

pub(crate) proof fn word_unsafe(m: NumberModel, s: Seq<char>, p: int)
    requires
        reading::at(s, p, "[unsafe] {\n"@),
    ensures
        "[unsafe] {\n"@.len() == 11,
        reading::reads(
            m,
            s,
            p,
            seq![SpecToken::LBracket, SpecToken::Ident("unsafe"@), SpecToken::RBracket, SpecToken::LBrace],
            p + 11,
        ),
{
    reveal_strlit("[unsafe] {\n");
    reveal_strlit("unsafe");
    let t = "[unsafe] {\n"@;
    reading::at_chars(s, p, t);
    reading::read_symbol(m, s, p, SpecToken::LBracket);
    reading::at_part(s, p, t, 1, "unsafe"@);
    reading::read_name(m, s, p + 1, "unsafe"@);
    reading::join(
        m,
        s,
        p,
        seq![SpecToken::LBracket],
        p + 1,
        seq![SpecToken::Ident("unsafe"@)],
        p + 7,
    );
    assert(seq![SpecToken::LBracket] + seq![SpecToken::Ident("unsafe"@)]
        =~= seq![SpecToken::LBracket, SpecToken::Ident("unsafe"@)]);
    reading::read_symbol(m, s, p + 7, SpecToken::RBracket);
    reading::join(
        m,
        s,
        p,
        seq![SpecToken::LBracket, SpecToken::Ident("unsafe"@)],
        p + 7,
        seq![SpecToken::RBracket],
        p + 8,
    );
    assert(seq![SpecToken::LBracket, SpecToken::Ident("unsafe"@)] + seq![SpecToken::RBracket]
        =~= seq![SpecToken::LBracket, SpecToken::Ident("unsafe"@), SpecToken::RBracket]);
    reading::read_blank(m, s, p + 8);
    reading::join_right(
        m,
        s,
        p,
        seq![SpecToken::LBracket, SpecToken::Ident("unsafe"@), SpecToken::RBracket],
        p + 8,
        p + 9,
    );
    reading::read_symbol(m, s, p + 9, SpecToken::LBrace);
    reading::join(
        m,
        s,
        p,
        seq![SpecToken::LBracket, SpecToken::Ident("unsafe"@), SpecToken::RBracket],
        p + 9,
        seq![SpecToken::LBrace],
        p + 10,
    );
    assert(seq![SpecToken::LBracket, SpecToken::Ident("unsafe"@), SpecToken::RBracket] + seq![SpecToken::LBrace]
        =~= seq![SpecToken::LBracket, SpecToken::Ident("unsafe"@), SpecToken::RBracket, SpecToken::LBrace]);
    reading::read_blank(m, s, p + 10);
    reading::join_right(
        m,
        s,
        p,
        seq![SpecToken::LBracket, SpecToken::Ident("unsafe"@), SpecToken::RBracket, SpecToken::LBrace],
        p + 10,
        p + 11,
    );
}

pub(crate) proof fn mark_brace(m: NumberModel, s: Seq<char>, p: int)
    requires
        reading::at(s, p, "}"@),
    ensures
        "}"@.len() == 1,
        reading::calm(s, p),
        reading::reads(m, s, p, seq![SpecToken::RBrace], p + 1),
{
    reveal_strlit("}");
    let t = "}"@;
    reading::at_chars(s, p, t);
    reading::read_symbol(m, s, p, SpecToken::RBrace);
}

pub(crate) proof fn word_mut(m: NumberModel, s: Seq<char>, p: int)
    requires
        reading::at(s, p, "mut "@),
    ensures
        "mut "@.len() == 4,
        reading::reads(m, s, p, seq![SpecToken::Ident("mut"@)], p + 4),
{
    reveal_strlit("mut ");
    reveal_strlit("mut");
    let t = "mut "@;
    reading::at_chars(s, p, t);
    reading::at_part(s, p, t, 0, "mut"@);
    reading::read_name(m, s, p, "mut"@);
    reading::read_blank(m, s, p + 3);
    reading::join_right(m, s, p, seq![SpecToken::Ident("mut"@)], p + 3, p + 4);
}

pub(crate) proof fn mark_equals(m: NumberModel, s: Seq<char>, p: int)
    requires
        reading::at(s, p, " = "@),
    ensures
        " = "@.len() == 3,
        reading::calm(s, p),
        reading::reads(m, s, p, seq![SpecToken::Equals], p + 3),
{
    reveal_strlit(" = ");
    let t = " = "@;
    reading::at_chars(s, p, t);
    reading::read_blank(m, s, p);
    reading::read_symbol(m, s, p + 1, SpecToken::Equals);
    reading::join_left(m, s, p, p + 1, seq![SpecToken::Equals], p + 2);
    reading::read_blank(m, s, p + 2);
    reading::join_right(m, s, p, seq![SpecToken::Equals], p + 2, p + 3);
}

pub(crate) proof fn mark_end(m: NumberModel, s: Seq<char>, p: int)
    requires
        reading::at(s, p, ";\n"@),
    ensures
        ";\n"@.len() == 2,
        reading::calm(s, p),
        reading::reads(m, s, p, seq![SpecToken::Semicolon], p + 2),
{
    reveal_strlit(";\n");
    let t = ";\n"@;
    reading::at_chars(s, p, t);
    reading::read_symbol(m, s, p, SpecToken::Semicolon);
    reading::read_blank(m, s, p + 1);
    reading::join_right(m, s, p, seq![SpecToken::Semicolon], p + 1, p + 2);
}

pub(crate) proof fn word_print(m: NumberModel, s: Seq<char>, p: int)
    requires
        reading::at(s, p, "print("@),
    ensures
        "print("@.len() == 6,
        reading::reads(m, s, p, seq![SpecToken::Ident("print"@), SpecToken::LParen], p + 6),
{
    reveal_strlit("print(");
    reveal_strlit("print");
    let t = "print("@;
    reading::at_chars(s, p, t);
    reading::at_part(s, p, t, 0, "print"@);
    reading::read_name(m, s, p, "print"@);
    reading::read_symbol(m, s, p + 5, SpecToken::LParen);
    reading::join(m, s, p, seq![SpecToken::Ident("print"@)], p + 5, seq![SpecToken::LParen], p + 6);
    assert(seq![SpecToken::Ident("print"@)] + seq![SpecToken::LParen]
        =~= seq![SpecToken::Ident("print"@), SpecToken::LParen]);
}

pub(crate) proof fn mark_end_print(m: NumberModel, s: Seq<char>, p: int)
    requires
        reading::at(s, p, ");\n"@),
    ensures
        ");\n"@.len() == 3,
        reading::calm(s, p),
        reading::reads(m, s, p, seq![SpecToken::RParen, SpecToken::Semicolon], p + 3),
{
    reveal_strlit(");\n");
    let t = ");\n"@;
    reading::at_chars(s, p, t);
    reading::read_symbol(m, s, p, SpecToken::RParen);
    reading::read_symbol(m, s, p + 1, SpecToken::Semicolon);
    reading::join(m, s, p, seq![SpecToken::RParen], p + 1, seq![SpecToken::Semicolon], p + 2);
    assert(seq![SpecToken::RParen] + seq![SpecToken::Semicolon]
        =~= seq![SpecToken::RParen, SpecToken::Semicolon]);
    reading::read_blank(m, s, p + 2);
    reading::join_right(m, s, p, seq![SpecToken::RParen, SpecToken::Semicolon], p + 2, p + 3);
}

pub(crate) proof fn word_fn(m: NumberModel, s: Seq<char>, p: int)
    requires
        reading::at(s, p, "fn "@),
    ensures
        "fn "@.len() == 3,
        reading::reads(m, s, p, seq![SpecToken::Ident("fn"@)], p + 3),
{
    reveal_strlit("fn ");
    reveal_strlit("fn");
    let t = "fn "@;
    reading::at_chars(s, p, t);
    reading::at_part(s, p, t, 0, "fn"@);
    reading::read_name(m, s, p, "fn"@);
    reading::read_blank(m, s, p + 2);
    reading::join_right(m, s, p, seq![SpecToken::Ident("fn"@)], p + 2, p + 3);
}

pub(crate) proof fn mark_body(m: NumberModel, s: Seq<char>, p: int)
    requires
        reading::at(s, p, ") {\n"@),
    ensures
        ") {\n"@.len() == 4,
        reading::calm(s, p),
        reading::reads(m, s, p, seq![SpecToken::RParen, SpecToken::LBrace], p + 4),
{
    reveal_strlit(") {\n");
    let t = ") {\n"@;
    reading::at_chars(s, p, t);
    reading::read_symbol(m, s, p, SpecToken::RParen);
    reading::read_blank(m, s, p + 1);
    reading::join_right(m, s, p, seq![SpecToken::RParen], p + 1, p + 2);
    reading::read_symbol(m, s, p + 2, SpecToken::LBrace);
    reading::join(m, s, p, seq![SpecToken::RParen], p + 2, seq![SpecToken::LBrace], p + 3);
    assert(seq![SpecToken::RParen] + seq![SpecToken::LBrace]
        =~= seq![SpecToken::RParen, SpecToken::LBrace]);
    reading::read_blank(m, s, p + 3);
    reading::join_right(m, s, p, seq![SpecToken::RParen, SpecToken::LBrace], p + 3, p + 4);
}

pub(crate) proof fn mark_end_body(m: NumberModel, s: Seq<char>, p: int)
    requires
        reading::at(s, p, "}\n"@),
    ensures
        "}\n"@.len() == 2,
        reading::calm(s, p),
        reading::reads(m, s, p, seq![SpecToken::RBrace], p + 2),
{
    reveal_strlit("}\n");
    let t = "}\n"@;
    reading::at_chars(s, p, t);
    reading::read_symbol(m, s, p, SpecToken::RBrace);
    reading::read_blank(m, s, p + 1);
    reading::join_right(m, s, p, seq![SpecToken::RBrace], p + 1, p + 2);
}

pub(crate) proof fn word_while(m: NumberModel, s: Seq<char>, p: int)
    requires
        reading::at(s, p, "while "@),
    ensures
        "while "@.len() == 6,
        reading::reads(m, s, p, seq![SpecToken::Ident("while"@)], p + 6),
{
    reveal_strlit("while ");
    reveal_strlit("while");
    let t = "while "@;
    reading::at_chars(s, p, t);
    reading::at_part(s, p, t, 0, "while"@);
    reading::read_name(m, s, p, "while"@);
    reading::read_blank(m, s, p + 5);
    reading::join_right(m, s, p, seq![SpecToken::Ident("while"@)], p + 5, p + 6);
}

pub(crate) proof fn mark_block(m: NumberModel, s: Seq<char>, p: int)
    requires
        reading::at(s, p, " {\n"@),
    ensures
        " {\n"@.len() == 3,
        reading::calm(s, p),
        reading::reads(m, s, p, seq![SpecToken::LBrace], p + 3),
{
    reveal_strlit(" {\n");
    let t = " {\n"@;
    reading::at_chars(s, p, t);
    reading::read_blank(m, s, p);
    reading::read_symbol(m, s, p + 1, SpecToken::LBrace);
    reading::join_left(m, s, p, p + 1, seq![SpecToken::LBrace], p + 2);
    reading::read_blank(m, s, p + 2);
    reading::join_right(m, s, p, seq![SpecToken::LBrace], p + 2, p + 3);
}

pub(crate) proof fn word_return(m: NumberModel, s: Seq<char>, p: int)
    requires
        reading::at(s, p, "return "@),
    ensures
        "return "@.len() == 7,
        reading::reads(m, s, p, seq![SpecToken::Ident("return"@)], p + 7),
{
    reveal_strlit("return ");
    reveal_strlit("return");
    let t = "return "@;
    reading::at_chars(s, p, t);
    reading::at_part(s, p, t, 0, "return"@);
    reading::read_name(m, s, p, "return"@);
    reading::read_blank(m, s, p + 6);
    reading::join_right(m, s, p, seq![SpecToken::Ident("return"@)], p + 6, p + 7);
}

/// Indentation reads as nothing.
pub(crate) proof fn read_blanks(m: NumberModel, s: Seq<char>, p: int, t: Seq<char>)
    requires
        reading::at(s, p, t),
        blanks(t),
    ensures
        reading::reads(m, s, p, Seq::empty(), p + t.len()),
    decreases t.len(),
{
    if t.len() == 0 {
        reading::read_nothing(m, s, p);
    } else {
        let front = t.drop_last();
        assert(t =~= front + seq![t.last()]);
        reading::at_split(s, p, front, seq![t.last()]);
        reading::at_char(s, p, t, t.len() - 1);
        assert(blanks(front));
        read_blanks(m, s, p, front);
        assert(lexer::is_blank(t[t.len() - 1]));
        reading::read_blank(m, s, p + front.len());
        reading::join_left(m, s, p, p + front.len(), Seq::empty(), p + t.len());
    }
}

/// Whether a text is white space.
pub open spec fn blanks(t: Seq<char>) -> bool {
    forall|i: int| 0 <= i < t.len() ==> lexer::is_blank(#[trigger] t[i])
}

pub(crate) proof fn read_op(m: NumberModel, s: Seq<char>, p: int, op: BinOp)
    requires
        reading::at(s, p, ast::op_text(op)),
        reading::calm(s, p + ast::op_text(op).len()),
    ensures
        reading::reads(m, s, p, seq![spelling::op_token(op)], p + ast::op_text(op).len()),
{
    reveal_strlit("+");
    reveal_strlit("-");
    reveal_strlit("*");
    reveal_strlit("/");
    reveal_strlit("<");
    reveal_strlit(">");
    reveal_strlit("<=");
    reveal_strlit(">=");
    reveal_strlit("==");
    reveal_strlit("!=");
    reveal_strlit("^");
    let t = ast::op_text(op);
    reading::at_bounds(s, p, t);
    reading::at_char(s, p, t, 0);
    if t.len() > 1 {
        reading::at_char(s, p, t, 1);
    }
    reading::read_token(m, s, p, spelling::op_token(op), p + t.len());
}

} // verus!
