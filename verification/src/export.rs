//! CSV serialization helpers (RFC 4180 quoting) for table export.
use vstd::prelude::*;
use crate::text::{chars_of, expand, join_with, lemma_expand_all, lemma_expand_step, push_char,
    push_str};

verus! {

pub open spec fn csv_special(c: char) -> bool {
    c == ',' || c == '"' || c == '\n' || c == '\r'
}

/// Each interior double quote doubled.
pub open spec fn double_quote(c: char) -> Seq<char> {
    if c == '"' {
        seq!['"', '"']
    } else {
        seq![c]
    }
}

pub open spec fn spec_csv_field(s: Seq<char>) -> Seq<char> {
    if exists|i: int| 0 <= i < s.len() && csv_special(#[trigger] s[i]) {
        seq!['"'] + expand(s, |c: char| double_quote(c)) + seq!['"']
    } else {
        s
    }
}

/// Quote a single CSV field per RFC 4180: wrap in double quotes (doubling any
/// interior quote) when the value contains a comma, quote, CR, or LF;
/// otherwise emit it verbatim.
pub fn csv_field(s: &str) -> (r: String)
    ensures
        r@ == spec_csv_field(s@),
{
    let cs = chars_of(s);
    let mut special = false;
    let mut i: usize = 0;
    while i < cs.len()
        invariant
            i <= cs.len(),
            cs@ == s@,
            special == exists|j: int| 0 <= j < i && csv_special(#[trigger] s@[j]),
        decreases cs.len() - i,
    {
        let c = cs[i];
        if c == ',' || c == '"' || c == '\n' || c == '\r' {
            special = true;
        }
        i += 1;
    }
    if !special {
        return s.to_owned();
    }
    let mut out = String::new();
    push_char(&mut out, '"');
    let mut k: usize = 0;
    while k < cs.len()
        invariant
            k <= cs.len(),
            cs@ == s@,
            out@ == seq!['"'] + expand(s@.take(k as int), |c: char| double_quote(c)),
        decreases cs.len() - k,
    {
        proof {
            lemma_expand_step(s@, k as int, |c: char| double_quote(c));
        }
        let c = cs[k];
        if c == '"' {
            push_char(&mut out, '"');
            push_char(&mut out, '"');
        } else {
            push_char(&mut out, c);
        }
        assert(out@ =~= seq!['"'] + expand(s@.take(k + 1), |c: char| double_quote(c)));
        k += 1;
    }
    proof {
        lemma_expand_all(s@, |c: char| double_quote(c));
    }
    push_char(&mut out, '"');
    assert(out@ =~= seq!['"'] + expand(s@, |c: char| double_quote(c)) + seq!['"']);
    out
}

pub open spec fn spec_csv_line(fields: Seq<&str>) -> Seq<char> {
    join_with(fields.map_values(|f: &str| spec_csv_field(f@)), ',')
}

/// Join `fields` into one CSV record (no trailing newline).
pub fn csv_line(fields: &[&str]) -> (r: String)
    ensures
        r@ == spec_csv_line(fields@),
{
    let ghost views = fields@.map_values(|f: &str| spec_csv_field(f@));
    let mut out = String::new();
    let mut i: usize = 0;
    assert(views.take(0) =~= Seq::<Seq<char>>::empty());
    while i < fields.len()
        invariant
            i <= fields.len(),
            views == fields@.map_values(|f: &str| spec_csv_field(f@)),
            out@ == join_with(views.take(i as int), ','),
        decreases fields.len() - i,
    {
        assert(views.take(i + 1).drop_last() =~= views.take(i as int));
        let ghost before = out@;
        if i > 0 {
            push_char(&mut out, ',');
        }
        let f = csv_field(fields[i]);
        push_str(&mut out, f.as_str());
        proof {
            if i == 0 {
                assert(views.take(1) =~= seq![views[0]]);
                assert(before =~= Seq::<char>::empty());
                assert(out@ =~= views[0]);
            }
        }
        i += 1;
    }
    assert(views.take(fields.len() as int) =~= views);
    out
}

} // verus!
