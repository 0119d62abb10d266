//! Laws of the lexer's set-up.
use vstd::prelude::*;
use crate::lexer::separator_texts;

verus! {

/// Whether `c` is an operator by itself.
pub open spec fn stands_alone(c: char) -> bool {
    ||| c == '+' || c == '-' || c == '*' || c == '/' || c == '%'
    ||| c == '<' || c == '>' || c == '='
    ||| c == '&' || c == '^' || c == '~' || c == '|'
    ||| c == '.'
}

/// Whether two of `c` are an operator.
pub open spec fn doubles(c: char) -> bool {
    c == '*' || c == '/' || c == '%' || c == '<' || c == '>' || c == '.' || c == '='
}

/// Whether three of `c` are an operator.
pub open spec fn triples(c: char) -> bool {
    c == '<' || c == '>' || c == '.'
}

/// Whether `c` with an equals sign behind it is an operator.
pub open spec fn takes_equals(c: char) -> bool {
    c == '!' || c == '<' || c == '>' || c == '|' || c == '='
}

/// Whether `t` is an operator: a character that is one by itself, doubled or tripled, one in
/// front of an equals sign, or one of the two mixed pairs.
pub open spec fn is_operator(t: Seq<char>) -> bool {
    ||| t.len() == 1 && stands_alone(t[0])
    ||| t.len() == 2 && t[0] == t[1] && doubles(t[0])
    ||| t.len() == 3 && t[0] == t[1] == t[2] && triples(t[0])
    ||| t.len() == 2 && takes_equals(t[0]) && t[1] == '='
    ||| t.len() == 2 && t[0] == '/' && t[1] == '%'
    ||| t.len() == 2 && t[0] == '>' && t[1] == '<'
}

proof fn lemma_literals()
    ensures
        forall|i: int|
            0 <= i < separator_texts().len() ==> is_operator(#[trigger] separator_texts()[i]),
{
    reveal_strlit("+");
    reveal_strlit("-");
    reveal_strlit("*");
    reveal_strlit("/");
    reveal_strlit("//");
    reveal_strlit("**");
    reveal_strlit("%");
    reveal_strlit("%%");
    reveal_strlit("/%");
    reveal_strlit("==");
    reveal_strlit("!=");
    reveal_strlit("<");
    reveal_strlit("<=");
    reveal_strlit(">");
    reveal_strlit(">=");
    reveal_strlit("><");
    reveal_strlit("&");
    reveal_strlit("^");
    reveal_strlit("~");
    reveal_strlit(">>");
    reveal_strlit("<<");
    reveal_strlit(">>>");
    reveal_strlit("<<<");
    reveal_strlit(".");
    reveal_strlit("|");
    reveal_strlit("|=");
    reveal_strlit("=");
    reveal_strlit("..");
    reveal_strlit("...");
}

proof fn lemma_single(t: Seq<char>)
    requires
        t.len() == 1,
        stands_alone(t[0]),
    ensures
        separator_texts().contains(t),
{
    reveal_strlit("+");
    reveal_strlit("-");
    reveal_strlit("*");
    reveal_strlit("/");
    reveal_strlit("%");
    reveal_strlit("<");
    reveal_strlit(">");
    reveal_strlit("=");
    reveal_strlit("&");
    reveal_strlit("^");
    reveal_strlit("~");
    reveal_strlit("|");
    reveal_strlit(".");
    let s = separator_texts();
    let k: int = if t[0] == '+' {
        0
    } else if t[0] == '-' {
        1
    } else if t[0] == '*' {
        2
    } else if t[0] == '/' {
        3
    } else if t[0] == '%' {
        6
    } else if t[0] == '<' {
        11
    } else if t[0] == '>' {
        13
    } else if t[0] == '&' {
        16
    } else if t[0] == '^' {
        17
    } else if t[0] == '~' {
        18
    } else if t[0] == '.' {
        23
    } else if t[0] == '|' {
        24
    } else {
        26
    };
    assert(s[k] =~= t);
}

proof fn lemma_pair(t: Seq<char>)
    requires
        t.len() == 2,
        is_operator(t),
    ensures
        separator_texts().contains(t),
{
    reveal_strlit("//");
    reveal_strlit("**");
    reveal_strlit("%%");
    reveal_strlit("/%");
    reveal_strlit("==");
    reveal_strlit("!=");
    reveal_strlit("<=");
    reveal_strlit(">=");
    reveal_strlit("><");
    reveal_strlit(">>");
    reveal_strlit("<<");
    reveal_strlit("|=");
    reveal_strlit("..");
    let s = separator_texts();
    let k: int = if t[1] == '=' {
        if t[0] == '=' {
            9
        } else if t[0] == '!' {
            10
        } else if t[0] == '<' {
            12
        } else if t[0] == '>' {
            14
        } else {
            25
        }
    } else if t[1] == '/' {
        4
    } else if t[1] == '*' {
        5
    } else if t[1] == '%' {
        if t[0] == '%' {
            7
        } else {
            8
        }
    } else if t[1] == '<' {
        if t[0] == '>' {
            15
        } else {
            20
        }
    } else if t[1] == '>' {
        19
    } else {
        27
    };
    assert(s[k] =~= t);
}

proof fn lemma_triple(t: Seq<char>)
    requires
        t.len() == 3,
        is_operator(t),
    ensures
        separator_texts().contains(t),
{
    reveal_strlit(">>>");
    reveal_strlit("<<<");
    reveal_strlit("...");
    let s = separator_texts();
    let k: int = if t[0] == '>' {
        21
    } else if t[0] == '<' {
        22
    } else {
        28
    };
    assert(s[k] =~= t);
}

/// The lexer separates exactly the operators from the names around them.
pub proof fn separators_are_the_operators(t: Seq<char>)
    ensures
        separator_texts().contains(t) <==> is_operator(t),
{
    lemma_literals();
    if is_operator(t) {
        if t.len() == 1 {
            lemma_single(t);
        } else if t.len() == 2 {
            lemma_pair(t);
        } else {
            lemma_triple(t);
        }
    }
}

} // verus!
