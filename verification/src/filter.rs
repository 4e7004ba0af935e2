//! Selecting postings: the query shorthand of the command line and the
//! account filter.
use vstd::prelude::*;
use crate::models::HasName;
use crate::text::{contains_str, find_str, lowercase, str_eq, to_lowercase, trim, trim_str};
use crate::transaction::{Posting, PostingType, Transaction};

verus! {

/// The state of the query expansion: the expression so far, whether the
/// next term is joined with `and`, whether no term was written yet and
/// whether the next term is a raw expression.
pub type QueryState = (Seq<char>, bool, bool, bool);

/// The expression written for one term of the query.
pub open spec fn term_expression(term: Seq<char>) -> Seq<char> {
    if term[0] == '@' {
        "payee =~ /(?i)"@ + term.drop_first() + "/"@
    } else if term[0] == '%' {
        "has_tag(/(?i)"@ + term.drop_first() + "/)"@
    } else if term[0] == '/' {
        "account =~ "@ + term
    } else {
        "account =~ /(?i)"@ + term + "/"@
    }
}

/// One term of the query.
pub open spec fn query_step(st: QueryState, raw: Seq<char>) -> QueryState {
    let term = trim(raw);
    if term.len() == 0 {
        st
    } else if term == "and"@ {
        (st.0, true, st.2, st.3)
    } else if term == "or"@ {
        (st.0, false, st.2, st.3)
    } else if term == "expr"@ {
        (st.0, st.1, st.2, true)
    } else {
        let join = if !st.2 {
            if st.1 {
                " and ("@
            } else {
                " or ("@
            }
        } else {
            "("@
        };
        let body = if st.3 {
            term
        } else {
            term_expression(term)
        };
        (st.0 + join + body + ")"@, false, false, false)
    }
}

/// The terms of the query, one after the other.
pub open spec fn query_fold(terms: Seq<String>) -> QueryState
    decreases terms.len(),
{
    if terms.len() == 0 {
        (Seq::<char>::empty(), false, true, false)
    } else {
        query_step(query_fold(terms.drop_last()), terms.last()@)
    }
}

/// The search expression for the words of a query.
pub open spec fn spec_preprocess_query(terms: Seq<String>) -> Seq<char> {
    "("@ + query_fold(terms).0 + ")"@
}

/// Expands the shorthand of the command line into a search expression:
/// `@payee` searches payees, `%tag` tags, `/re/` accounts by a regular
/// expression, any other word accounts case-insensitively; `and` and `or`
/// join terms (`or` by default) and `expr` passes the next term as written.
pub fn preprocess_query(query: &Vec<String>) -> (res: String)
    ensures
        res@ == spec_preprocess_query(query@),
{
    let mut expression = String::new();
    let mut and = false;
    let mut first = true;
    let mut expr = false;
    let n = query.len();
    for i in 0..n
        invariant
            n == query@.len(),
            query_fold(query@.take(i as int)) == (expression@, and, first, expr),
    {
        proof {
            assert(query@.take(i + 1).drop_last() =~= query@.take(i as int));
        }
        let term = trim_str(query[i].as_str());
        if term.unicode_len() == 0 {
        } else if str_eq(term, "and") {
            and = true;
        } else if str_eq(term, "or") {
            and = false;
        } else if str_eq(term, "expr") {
            expr = true;
        } else {
            let join_term = if !first {
                if and {
                    " and ("
                } else {
                    " or ("
                }
            } else {
                "("
            };
            expression.append(join_term);
            if expr {
                expression.append(term);
            } else {
                let c = term.get_char(0);
                let len = term.unicode_len();
                if c == '@' {
                    expression.append("payee =~ /(?i)");
                    expression.append(term.substring_char(1, len));
                    expression.append("/");
                } else if c == '%' {
                    expression.append("has_tag(/(?i)");
                    expression.append(term.substring_char(1, len));
                    expression.append("/)");
                } else if c == '/' {
                    expression.append("account =~ ");
                    expression.append(term);
                } else {
                    expression.append("account =~ /(?i)");
                    expression.append(term);
                    expression.append("/");
                }
                proof {
                    assert(term@.subrange(1, term@.len() as int) =~= term@.drop_first());
                }
            }
            expression.append(")");
            proof {
                let st = query_fold(query@.take(i as int));
                let nx = query_step(st, query@[i as int]@);
                assert(expression@ =~= nx.0);
            }
            and = false;
            expr = false;
            first = false;
        }
    }
    assert(query@.take(n as int) =~= query@);
    let mut res = String::from_str("(");
    res.append(expression.as_str());
    res.append(")");
    res
}

/// Whether the lowercased account name contains one of the words.
pub open spec fn matches_any(name: Seq<char>, predicate: Seq<String>) -> bool {
    exists|i: int| 0 <= i < predicate.len() && contains_str(name, #[trigger] predicate[i]@)
}

/// Whether a posting is selected: with `real_only` only real postings are; with
/// no words every posting is, else those whose lowercased account name
/// contains one of the words.
pub fn filter(predicate: &Vec<String>, transaction: &Transaction<Posting>, posting: &Posting, real_only: bool) -> (res: bool)
    ensures
        res == ((!real_only || posting.kind == PostingType::Real) && (predicate@.len() == 0 || matches_any(
            lowercase(posting.account.name@),
            predicate@,
        ))),
{
    let name = to_lowercase(posting.account.get_name());
    if real_only {
        match posting.kind {
            PostingType::Real => {},
            _ => {
                return false;
            },
        }
    }
    if predicate.len() == 0 {
        return true;
    }
    let n = predicate.len();
    for i in 0..n
        invariant
            n == predicate@.len(),
            name@ == lowercase(posting.account.name@),
            !real_only || posting.kind == PostingType::Real,
            forall|j: int| 0 <= j < i ==> !contains_str(name@, #[trigger] predicate@[j]@),
    {
        if find_str(name.as_str(), predicate[i].as_str()) {
            assert(contains_str(name@, predicate@[i as int]@));
            return true;
        }
    }
    false
}

} // verus!
