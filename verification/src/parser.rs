//! The management-statement reader: `SHOW TABLES`, `DESCRIBE t`, and the
//! two forms of `DROP TABLE`, recognised from plain tokens. Everything
//! else of the SQL surface is an outside collaborator's job; this crate
//! consumes its output as a `Statement`.

use vstd::prelude::*;
use crate::coerce::{is_space, lower_char, lower_spec};
use crate::stmt::{Statement, StatementS};
use crate::storage::StorageError;
use crate::text::{chars_vec, string_from_chars};

verus! {

/// The length of the leading whitespace-free word.
pub open spec fn word_len(s: Seq<char>) -> int
    decreases s.len(),
{
    if s.len() == 0 || is_space(s[0]) {
        0
    } else {
        1 + word_len(s.drop_first())
    }
}

proof fn lemma_word_len(s: Seq<char>)
    ensures
        0 <= word_len(s) <= s.len(),
        forall|j: int| 0 <= j < word_len(s) ==> !is_space(#[trigger] s[j]),
        word_len(s) < s.len() ==> is_space(s[word_len(s)]),
        s.len() > 0 && !is_space(s[0]) ==> word_len(s) >= 1,
    decreases s.len(),
{
    if s.len() > 0 && !is_space(s[0]) {
        lemma_word_len(s.drop_first());
        assert forall|j: int| 0 <= j < word_len(s) implies !is_space(#[trigger] s[j]) by {
            if j > 0 {
                assert(s.drop_first()[j - 1] == s[j]);
            }
        }
        if word_len(s) < s.len() {
            assert(s.drop_first()[word_len(s) - 1] == s[word_len(s)]);
        }
    }
}

/// The whitespace-separated tokens of a line.
pub open spec fn tokens_spec(s: Seq<char>) -> Seq<Seq<char>>
    decreases s.len(),
    via tokens_spec_dec
{
    if s.len() == 0 {
        Seq::empty()
    } else if is_space(s[0]) {
        tokens_spec(s.drop_first())
    } else {
        seq![s.take(word_len(s))] + tokens_spec(s.skip(word_len(s)))
    }
}

#[via_fn]
proof fn tokens_spec_dec(s: Seq<char>) {
    if s.len() > 0 && !is_space(s[0]) {
        lemma_word_len(s);
    }
}

/// A token lowercased equals the given word.
pub open spec fn tok_is(t: Seq<char>, w: Seq<char>) -> bool {
    lower_spec(t) == w
}

/// What the management reader yields for a token line: `SHOW TABLES`,
/// `DESCRIBE t`, `DROP TABLE t`, and `DROP TABLE IF EXISTS t`, keywords
/// case-insensitive, the table identifier unquoted if it came quoted.
pub open spec fn mgmt_spec(toks: Seq<Seq<char>>) -> Option<StatementS> {
    if toks.len() == 2 && tok_is(toks[0], seq!['s', 'h', 'o', 'w']) && tok_is(
        toks[1],
        seq!['t', 'a', 'b', 'l', 'e', 's'],
    ) {
        Some(StatementS::ShowTables)
    } else if toks.len() == 2 && tok_is(toks[0], seq!['d', 'e', 's', 'c', 'r', 'i', 'b', 'e']) {
        Some(StatementS::DescribeTable { name: clean_ident_spec(toks[1]) })
    } else if toks.len() == 3 && tok_is(toks[0], seq!['d', 'r', 'o', 'p']) && tok_is(
        toks[1],
        seq!['t', 'a', 'b', 'l', 'e'],
    ) {
        Some(StatementS::DropTable { name: clean_ident_spec(toks[2]), if_exists: false })
    } else if toks.len() == 5 && tok_is(toks[0], seq!['d', 'r', 'o', 'p']) && tok_is(
        toks[1],
        seq!['t', 'a', 'b', 'l', 'e'],
    ) && tok_is(toks[2], seq!['i', 'f']) && tok_is(toks[3], seq!['e', 'x', 'i', 's', 't', 's']) {
        Some(StatementS::DropTable { name: clean_ident_spec(toks[4]), if_exists: true })
    } else {
        None
    }
}

/// An identifier is trimmed of surrounding whitespace first; a matching
/// pair of backticks, double or single quotes then comes off; anything
/// else stays as it is.
pub open spec fn clean_ident_spec(s: Seq<char>) -> Seq<char> {
    let t = crate::coerce::trim_spec(s);
    if t.len() >= 2 && ((t[0] == '`' && t.last() == '`') || (t[0] == '"' && t.last() == '"') || (
    t[0] == '\'' && t.last() == '\'')) {
        t.subrange(1, t.len() - 1)
    } else {
        t
    }
}

/// Reads SQL text into statements. The four management statements are
/// decided here; the rest of the dialect is handed to the surface parser
/// outside this crate.
pub struct Parser;

impl Parser {
    /// Splits a line into whitespace-separated tokens.
    fn tokenize(s: &str) -> (r: Vec<String>)
        ensures
            crate::stmt::strings_view(r@) == tokens_spec(s@),
    {
        let cs = chars_vec(s);
        let n = cs.len();
        let mut out: Vec<String> = Vec::new();
        let mut i: usize = 0;
        proof {
            assert(cs@.skip(0) =~= cs@);
            assert(crate::stmt::strings_view(out@) + tokens_spec(cs@) =~= tokens_spec(cs@));
        }
        while i < n
            invariant
                0 <= i <= n,
                n == cs@.len(),
                cs@ == s@,
                tokens_spec(s@) == crate::stmt::strings_view(out@) + tokens_spec(
                    cs@.skip(i as int),
                ),
            decreases n - i,
        {
            proof {
                assert(cs@.skip(i as int)[0] == cs@[i as int]);
                assert(cs@.skip(i as int).drop_first() =~= cs@.skip(i as int + 1));
            }
            let c = cs[i];
            if c == ' ' || c == '\t' || c == '\n' || c == '\r' {
                i = i + 1;
            } else {
                proof {
                    lemma_word_len(cs@.skip(i as int));
                }
                // gather the word
                let mut w: Vec<char> = Vec::new();
                let start = i;
                let ghost rest = cs@.skip(start as int);
                let mut j: usize = i;
                while j < n && !(cs[j] == ' ' || cs[j] == '\t' || cs[j] == '\n' || cs[j] == '\r')
                    invariant
                        start <= j <= n,
                        n == cs@.len(),
                        rest == cs@.skip(start as int),
                        w@ == rest.take(j - start),
                        forall|k: int| 0 <= k < j - start ==> !is_space(#[trigger] rest[k]),
                    decreases n - j,
                {
                    proof {
                        assert(rest[j - start] == cs@[j as int]);
                        assert(rest.take(j - start + 1) =~= rest.take(j - start).push(
                            rest[j - start],
                        ));
                    }
                    w.push(cs[j]);
                    j = j + 1;
                }
                proof {
                    if j < n {
                        assert(rest[j - start] == cs@[j as int]);
                    }
                    lemma_word_len(rest);
                    assert(word_len(rest) == j - start) by {
                        if word_len(rest) < j - start {
                            assert(!is_space(rest[word_len(rest)]));
                        }
                        if word_len(rest) > j - start {
                            assert(!is_space(rest[j - start]));
                        }
                    }
                }
                let ghost outpre = out@;
                out.push(string_from_chars(&w));
                proof {
                    assert(crate::stmt::strings_view(out@) =~= crate::stmt::strings_view(outpre)
                        + seq![rest.take(word_len(rest))]);
                    assert(rest.skip(word_len(rest)) =~= cs@.skip(j as int));
                    assert((crate::stmt::strings_view(outpre) + seq![rest.take(word_len(rest))])
                        + tokens_spec(cs@.skip(j as int)) =~= crate::stmt::strings_view(outpre)
                        + (seq![rest.take(word_len(rest))] + tokens_spec(cs@.skip(j as int))));
                }
                i = j;
            }
        }
        proof {
            assert(cs@.skip(n as int) =~= Seq::<char>::empty());
            assert(crate::stmt::strings_view(out@) + Seq::<Seq<char>>::empty()
                =~= crate::stmt::strings_view(out@));
        }
        out
    }

    /// Lowercases ASCII letters of a token and compares to a word.
    fn tok_matches(t: &String, w: &Vec<char>) -> (r: bool)
        ensures
            r == (lower_spec(t@) == w@),
    {
        let cs = chars_vec(t.as_str());
        let n = cs.len();
        if n != w.len() {
            proof {
                if lower_spec(t@) == w@ {
                    assert(lower_spec(t@).len() == w@.len());
                }
            }
            return false;
        }
        let mut i: usize = 0;
        while i < n
            invariant
                0 <= i <= n,
                n == cs@.len() == w@.len(),
                cs@ == t@,
                forall|j: int| 0 <= j < i ==> lower_spec(t@)[j] == w@[j],
            decreases n - i,
        {
            let c = cs[i];
            let lc: char = if c >= 'A' && c <= 'Z' {
                (((c as u32) + 32) as u8) as char
            } else {
                c
            };
            proof {
                assert(lower_spec(t@)[i as int] == lower_char(t@[i as int]));
            }
            if lc != w[i] {
                proof {
                    if lower_spec(t@) == w@ {
                        assert(lower_spec(t@)[i as int] == w@[i as int]);
                    }
                }
                return false;
            }
            i = i + 1;
        }
        proof {
            assert(lower_spec(t@) =~= w@);
        }
        true
    }

    /// Trims the identifier and strips a matching pair of quotes,
    /// exactly as `clean_ident_spec` describes.
    pub fn clean_identifier(raw: &str) -> (r: String)
        ensures
            r@ == clean_ident_spec(raw@),
    {
        let cs = chars_vec(raw);
        let window = crate::coerce::trim_window(&cs);
        let from = window.0;
        let to = window.1;
        let ghost t = crate::coerce::trim_spec(raw@);
        proof {
            assert(t == cs@.subrange(from as int, to as int));
        }
        let n = to - from;
        let mut lo: usize = from;
        let mut hi: usize = to;
        if n >= 2 {
            let first = cs[from];
            let last = cs[to - 1];
            proof {
                assert(t[0] == cs@[from as int]);
                assert(t.last() == cs@[to - 1]);
            }
            if (first == '`' && last == '`') || (first == '"' && last == '"') || (first == '\''
                && last == '\'') {
                lo = from + 1;
                hi = to - 1;
            }
        }
        let mut out: Vec<char> = Vec::new();
        let mut i: usize = lo;
        while i < hi
            invariant
                lo <= i <= hi <= cs@.len(),
                out@ == cs@.subrange(lo as int, i as int),
            decreases hi - i,
        {
            out.push(cs[i]);
            proof {
                assert(out@ =~= cs@.subrange(lo as int, i + 1));
            }
            i = i + 1;
        }
        proof {
            if lo == from {
                assert(cs@.subrange(lo as int, hi as int) =~= t);
            } else {
                assert(cs@.subrange(lo as int, hi as int) =~= t.subrange(1, t.len() - 1));
            }
        }
        string_from_chars(&out)
    }

    /// Decides the four management statements from a token line, exactly
    /// as `mgmt_spec` describes; any other line is not a management
    /// statement.
    pub fn parse_management_statement(sql: &str) -> (r: Result<Option<Statement>, StorageError>)
        ensures
            r matches Ok(o) ==> match o {
                Option::Some(st) => mgmt_spec(tokens_spec(sql@)) == Some(st@),
                Option::None => mgmt_spec(tokens_spec(sql@)) is None,
            },
            r is Ok,
    {
        let toks = Self::tokenize(sql);
        let ghost tv = tokens_spec(sql@);
        let mut show: Vec<char> = Vec::new();
        show.push('s');
        show.push('h');
        show.push('o');
        show.push('w');
        let mut tables: Vec<char> = Vec::new();
        tables.push('t');
        tables.push('a');
        tables.push('b');
        tables.push('l');
        tables.push('e');
        tables.push('s');
        let mut describe: Vec<char> = Vec::new();
        describe.push('d');
        describe.push('e');
        describe.push('s');
        describe.push('c');
        describe.push('r');
        describe.push('i');
        describe.push('b');
        describe.push('e');
        let mut dropw: Vec<char> = Vec::new();
        dropw.push('d');
        dropw.push('r');
        dropw.push('o');
        dropw.push('p');
        let mut tablew: Vec<char> = Vec::new();
        tablew.push('t');
        tablew.push('a');
        tablew.push('b');
        tablew.push('l');
        tablew.push('e');
        let mut ifw: Vec<char> = Vec::new();
        ifw.push('i');
        ifw.push('f');
        let mut existsw: Vec<char> = Vec::new();
        existsw.push('e');
        existsw.push('x');
        existsw.push('i');
        existsw.push('s');
        existsw.push('t');
        existsw.push('s');
        proof {
            assert(show@ =~= seq!['s', 'h', 'o', 'w']);
            assert(tables@ =~= seq!['t', 'a', 'b', 'l', 'e', 's']);
            assert(describe@ =~= seq!['d', 'e', 's', 'c', 'r', 'i', 'b', 'e']);
            assert(dropw@ =~= seq!['d', 'r', 'o', 'p']);
            assert(tablew@ =~= seq!['t', 'a', 'b', 'l', 'e']);
            assert(ifw@ =~= seq!['i', 'f']);
            assert(existsw@ =~= seq!['e', 'x', 'i', 's', 't', 's']);
            assert forall|j: int| 0 <= j < toks@.len() implies (#[trigger] toks@[j])@
                == tv[j] by {
                assert(crate::stmt::strings_view(toks@)[j] == toks@[j]@);
            }
        }
        if toks.len() == 2 && Self::tok_matches(&toks[0], &show) && Self::tok_matches(
            &toks[1],
            &tables,
        ) {
            return Ok(Some(Statement::ShowTables));
        }
        if toks.len() == 2 && Self::tok_matches(&toks[0], &describe) {
            let name = Self::clean_identifier(toks[1].as_str());
            return Ok(Some(Statement::DescribeTable { name }));
        }
        if toks.len() == 3 && Self::tok_matches(&toks[0], &dropw) && Self::tok_matches(
            &toks[1],
            &tablew,
        ) {
            let name = Self::clean_identifier(toks[2].as_str());
            return Ok(Some(Statement::DropTable { name, if_exists: false }));
        }
        if toks.len() == 5 && Self::tok_matches(&toks[0], &dropw) && Self::tok_matches(
            &toks[1],
            &tablew,
        ) && Self::tok_matches(&toks[2], &ifw) && Self::tok_matches(&toks[3], &existsw) {
            let name = Self::clean_identifier(toks[4].as_str());
            return Ok(Some(Statement::DropTable { name, if_exists: true }));
        }
        Ok(None)
    }
}

} // verus!
