//! How the lexer is set up.
use vstd::prelude::*;

verus! {

/// The operators that the lexer separates from the names around them.
pub open spec fn separator_texts() -> Seq<Seq<char>> {
    seq![
        "+"@,
        "-"@,
        "*"@,
        "/"@,
        "//"@,
        "**"@,
        "%"@,
        "%%"@,
        "/%"@,
        "=="@,
        "!="@,
        "<"@,
        "<="@,
        ">"@,
        ">="@,
        "><"@,
        "&"@,
        "^"@,
        "~"@,
        ">>"@,
        "<<"@,
        ">>>"@,
        "<<<"@,
        "."@,
        "|"@,
        "|="@,
        "="@,
        ".."@,
        "..."@,
    ]
}

/// The operators that the lexer separates from the names around them.
pub fn separators() -> (list: Vec<&'static str>)
    ensures
        list@.map_values(|s: &'static str| s@) == separator_texts(),
{
    let list: Vec<&'static str> = vec![
        "+",
        "-",
        "*",
        "/",
        "//",
        "**",
        "%",
        "%%",
        "/%",
        "==",
        "!=",
        "<",
        "<=",
        ">",
        ">=",
        "><",
        "&",
        "^",
        "~",
        ">>",
        "<<",
        ">>>",
        "<<<",
        ".",
        "|",
        "|=",
        "=",
        "..",
        "...",
    ];
    assert(list@.map_values(|s: &'static str| s@) =~= separator_texts());
    list
}

} // verus!
