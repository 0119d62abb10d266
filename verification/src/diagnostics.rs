//! Diagnostics in the JSON form that the editor reads.
use vstd::prelude::*;
use vstd::string::*;
use crate::json::{
    add_range, add_text, items_of, json_of, lemma_items_push, range_entries, Entry, Json, Member,
    Value,
};
use crate::syntax::{ast_loc, loc_of, Loc, PassError, Token, TokenKind};

verus! {

/// A diagnostic: where, what, and which pass says so how severely.
pub struct DiagModel {
    pub loc: Loc,
    pub message: Seq<char>,
    pub source: Seq<char>,
    pub severity: Seq<char>,
}

/// The JSON object for a diagnostic.
pub open spec fn diag_json(d: DiagModel) -> Json {
    Json::Object(
        range_entries(
            d.loc.line as int,
            d.loc.col as int,
            d.loc.end_line as int,
            d.loc.end_col as int,
        ).push(Entry { key: "message"@, value: Json::Text(d.message) }).push(
            Entry { key: "source"@, value: Json::Text(d.source) },
        ).push(Entry { key: "severity"@, value: Json::Text(d.severity) }),
    )
}

/// The JSON objects for diagnostics.
pub open spec fn diag_list(diags: Seq<DiagModel>) -> Seq<Json> {
    diags.map_values(|d: DiagModel| diag_json(d))
}

/// Makes the JSON object for a diagnostic.
pub fn make_diag(loc: &Loc, message: &str, source: &str, severity: &str) -> (v: Value)
    ensures
        json_of(v) == diag_json(
            DiagModel { loc: *loc, message: message@, source: source@, severity: severity@ },
        ),
{
    let mut members: Vec<Member> = Vec::new();
    add_range(&mut members, loc.line, loc.col, loc.end_line, loc.end_col);
    add_text(&mut members, "message", message);
    add_text(&mut members, "source", source);
    add_text(&mut members, "severity", severity);
    let v = Value::Object(members);
    let ghost d = DiagModel { loc: *loc, message: message@, source: source@, severity: severity@ };
    assert(json_of(v)->Object_0 =~= diag_json(d)->Object_0);
    v
}

/// The diagnostic for the error that a pass stopped with.
pub open spec fn pass_diag(e: PassError, source: Seq<char>) -> DiagModel {
    DiagModel { loc: loc_of(e.loc), message: e.message@, source, severity: "error"@ }
}

/// Makes the JSON object for the error that a pass stopped with.
pub fn make_pass_diag(e: &PassError, source: &str) -> (v: Value)
    ensures
        json_of(v) == diag_json(pass_diag(*e, source@)),
{
    make_diag(&ast_loc(&e.loc), e.message.as_str(), source, "error")
}

/// The diagnostics for the error tokens among `tokens`.
pub open spec fn lexer_diags(tokens: Seq<Token>) -> Seq<DiagModel>
    decreases tokens.len(),
{
    if tokens.len() == 0 {
        Seq::empty()
    } else if tokens.last().kind is Error {
        lexer_diags(tokens.drop_last()).push(
            DiagModel {
                loc: loc_of(tokens.last().loc),
                message: tokens.last().src@,
                source: "lexer"@,
                severity: "error"@,
            },
        )
    } else {
        lexer_diags(tokens.drop_last())
    }
}

/// Adds the JSON object for a diagnostic to those for `was`.
pub(crate) fn add_diag(diags: &mut Vec<Value>, diag: Value, Ghost(was): Ghost<Seq<DiagModel>>, Ghost(
    d,
): Ghost<DiagModel>)
    requires
        items_of(old(diags)@) == diag_list(was),
        json_of(diag) == diag_json(d),
    ensures
        items_of(final(diags)@) == diag_list(was.push(d)),
{
    proof {
        lemma_items_push(diags@, diag);
        assert(diag_list(was.push(d)) =~= diag_list(was).push(diag_json(d)));
    }
    diags.push(diag);
}

/// Makes the JSON objects for the error tokens among `tokens`.
pub fn make_lexer_diags(tokens: &Vec<Token>) -> (diags: Vec<Value>)
    ensures
        items_of(diags@) == diag_list(lexer_diags(tokens@)),
{
    let mut diags: Vec<Value> = Vec::new();
    assert(items_of(diags@) =~= diag_list(lexer_diags(tokens@.take(0))));
    for i in 0..tokens.len()
        invariant
            items_of(diags@) == diag_list(lexer_diags(tokens@.take(i as int))),
    {
        let ghost upto = tokens@.take(i + 1);
        proof {
            assert(upto.drop_last() =~= tokens@.take(i as int));
        }
        let token = &tokens[i];
        match token.kind {
            TokenKind::Error => {
                let diag = make_diag(&ast_loc(&token.loc), token.src.as_str(), "lexer", "error");
                add_diag(
                    &mut diags,
                    diag,
                    Ghost(lexer_diags(tokens@.take(i as int))),
                    Ghost(lexer_diags(upto).last()),
                );
            },
            TokenKind::Other => {},
        }
    }
    assert(tokens@.take(tokens.len() as int) =~= tokens@);
    diags
}

} // verus!
