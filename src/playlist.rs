//! A playlist of record files: natural ordering of their names and a cursor
//! over them.
use crate::text::{
    chars_of, is_numeric_char, parsed_below, lower_of, lowercase, numeric, parse_usize, push_char,
};
use std::cmp::Ordering;
use vstd::prelude::*;

verus! {

/// A piece of a file name: a run of non-numeric characters in lower case, or
/// the value of a run of digits.
#[derive(Debug, Clone, PartialEq, Eq)]
pub enum Token {
    Text(Vec<char>),
    Number(usize),
}

/// What a token stands for.
pub enum TokenSpec {
    Text(Seq<char>),
    Number(nat),
}

/// The meaning of a token.
pub open spec fn token_spec(t: Token) -> TokenSpec {
    match t {
        Token::Text(s) => TokenSpec::Text(s@),
        Token::Number(n) => TokenSpec::Number(n as nat),
    }
}

/// The meanings of a list of tokens.
pub open spec fn tokens_view(ts: Seq<Token>) -> Seq<TokenSpec> {
    ts.map_values(|t: Token| token_spec(t))
}

/// The maximal runs of `s` whose characters are all numeric or all not.
pub open spec fn runs_of(s: Seq<char>) -> Seq<Seq<char>>
    decreases s.len(),
{
    if s.len() == 0 {
        seq![]
    } else {
        let r = runs_of(s.drop_last());
        let c = s.last();
        if r.len() > 0 && numeric(r.last().last()) == numeric(c) {
            r.update(r.len() - 1, r.last().push(c))
        } else {
            r.push(seq![c])
        }
    }
}

/// The token of one run: its value for a numeric run (none when it does not
/// parse), its lower-case form otherwise.
pub open spec fn token_of_run(run: Seq<char>) -> Seq<TokenSpec> {
    if numeric(run[0]) {
        match parsed_below(run, usize::MAX as nat) {
            Some(n) => seq![TokenSpec::Number(n)],
            None => seq![],
        }
    } else {
        seq![TokenSpec::Text(lower_of(run))]
    }
}

/// The tokens of a list of runs, in order.
pub open spec fn tokens_of_runs(runs: Seq<Seq<char>>) -> Seq<TokenSpec>
    decreases runs.len(),
{
    if runs.len() == 0 {
        seq![]
    } else {
        tokens_of_runs(runs.drop_last()) + token_of_run(runs.last())
    }
}

/// The tokens of a name.
pub open spec fn tokens_of(s: Seq<char>) -> Seq<TokenSpec> {
    tokens_of_runs(runs_of(s))
}

/// All characters of `s` are numeric, or (when `num` is false) none is.
pub open spec fn all_numeric_as(s: Seq<char>, num: bool) -> bool {
    forall|j: int| 0 <= j < s.len() ==> numeric(#[trigger] s[j]) == num
}

/// The token of a finished text run.
fn text_token(run: &String) -> (t: Token)
    ensures
        token_spec(t) == TokenSpec::Text(lower_of(run@)),
{
    let lower = lowercase(run.as_str());
    Token::Text(chars_of(lower.as_str()))
}

/// Splits a name into tokens: runs of numeric characters become numbers (a run
/// that does not parse as a `usize` is dropped), the runs between them become
/// lower-case text.
pub fn tokenize(s: &str) -> (r: Vec<Token>)
    ensures
        tokens_view(r@) == tokens_of(s@),
{
    broadcast use vstd::string::group_string_axioms;

    let mut tokens: Vec<Token> = Vec::new();
    let mut current_num = String::new();
    let mut current_text = String::new();
    for ch in it: s.chars()
        invariant
            it.seq() == s@,
            0 <= it.index() <= s@.len(),
            all_numeric_as(current_num@, true),
            all_numeric_as(current_text@, false),
            it.index() == 0 ==> current_num@.len() == 0 && current_text@.len() == 0 && tokens@.len()
                == 0,
            it.index() > 0 ==> {
                let r = runs_of(s@.subrange(0, it.index()));
                &&& r.len() > 0
                &&& tokens_view(tokens@) == tokens_of_runs(r.drop_last())
                &&& (current_num@.len() > 0 && current_text@.len() == 0 && r.last() == current_num@)
                    || (current_text@.len() > 0 && current_num@.len() == 0 && r.last()
                    == current_text@)
            },
    {
        let ghost pre = s@.subrange(0, it.index());
        let ghost r = runs_of(pre);
        let ghost next = s@.subrange(0, it.index() + 1);
        proof {
            assert(next.drop_last() =~= pre);
            assert(next.last() == ch);
            assert(r.len() > 0 ==> r =~= r.drop_last().push(r.last()));
        }
        if is_numeric_char(ch) {
            if !current_text.as_str().is_empty() {
                let t = text_token(&current_text);
                proof {
                    assert(current_text@[0] == current_text@.last() || current_text@.len() > 1);
                    assert(!numeric(current_text@[0]));
                    assert(!numeric(current_text@.last()));
                    assert(runs_of(next) == r.push(seq![ch]));
                    assert(r.push(seq![ch]).drop_last() =~= r);
                    assert(tokens_view(tokens@.push(t)) =~= tokens_view(tokens@).push(token_spec(t)));
                    assert(tokens_of_runs(r) == tokens_of_runs(r.drop_last()) + seq![token_spec(t)]);
                }
                tokens.push(t);
                current_text = String::new();
            } else if !current_num.as_str().is_empty() {
                proof {
                    assert(numeric(current_num@.last()));
                    let r2 = r.update(r.len() - 1, r.last().push(ch));
                    assert(runs_of(next) == r2);
                    assert(r2.drop_last() =~= r.drop_last());
                }
            } else {
                proof {
                    assert(pre.len() == 0);
                    assert(runs_of(next) == seq![seq![ch]]);
                    assert(seq![seq![ch]].drop_last() =~= Seq::<Seq<char>>::empty());
                }
            }
            let ghost before = current_num@;
            push_char(&mut current_num, ch);
            assert(current_num@ == before.push(ch));
        } else {
            if !current_num.as_str().is_empty() {
                let ghost old_tokens = tokens@;
                proof {
                    assert(numeric(current_num@[0]));
                    assert(numeric(current_num@.last()));
                    assert(runs_of(next) == r.push(seq![ch]));
                    assert(r.push(seq![ch]).drop_last() =~= r);
                }
                match parse_usize(current_num.as_str()) {
                    Some(n) => {
                        tokens.push(Token::Number(n));
                        proof {
                            assert(tokens_view(tokens@) =~= tokens_view(old_tokens).push(
                                TokenSpec::Number(n as nat),
                            ));
                        }
                    },
                    None => {},
                }
                proof {
                    assert(tokens_of_runs(r) == tokens_of_runs(r.drop_last()) + token_of_run(
                        current_num@,
                    ));
                }
                current_num = String::new();
            } else if !current_text.as_str().is_empty() {
                proof {
                    assert(!numeric(current_text@.last()));
                    let r2 = r.update(r.len() - 1, r.last().push(ch));
                    assert(runs_of(next) == r2);
                    assert(r2.drop_last() =~= r.drop_last());
                }
            } else {
                proof {
                    assert(pre.len() == 0);
                    assert(runs_of(next) == seq![seq![ch]]);
                    assert(seq![seq![ch]].drop_last() =~= Seq::<Seq<char>>::empty());
                }
            }
            let ghost before = current_text@;
            push_char(&mut current_text, ch);
            assert(current_text@ == before.push(ch));
        }
    }
    let ghost r = runs_of(s@);
    proof {
        assert(s@.subrange(0, s@.len() as int) =~= s@);
        assert(r.len() > 0 ==> r =~= r.drop_last().push(r.last()));
    }
    if !current_text.as_str().is_empty() {
        let t = text_token(&current_text);
        proof {
            assert(!numeric(current_text@[0]));
            assert(tokens_view(tokens@.push(t)) =~= tokens_view(tokens@).push(token_spec(t)));
        }
        tokens.push(t);
    }
    if !current_num.as_str().is_empty() {
        let ghost old_tokens = tokens@;
        proof {
            assert(numeric(current_num@[0]));
        }
        match parse_usize(current_num.as_str()) {
            Some(n) => {
                tokens.push(Token::Number(n));
                proof {
                    assert(tokens_view(tokens@) =~= tokens_view(old_tokens).push(
                        TokenSpec::Number(n as nat),
                    ));
                }
            },
            None => {},
        }
    }
    proof {
        if s@.len() == 0 {
            assert(r.len() == 0);
        }
    }
    tokens
}

/// Compares two numbers.
pub open spec fn cmp_nat(a: nat, b: nat) -> Ordering {
    if a < b {
        Ordering::Less
    } else if a > b {
        Ordering::Greater
    } else {
        Ordering::Equal
    }
}

/// Compares two texts character by character; a proper prefix comes first.
pub open spec fn cmp_text(a: Seq<char>, b: Seq<char>) -> Ordering
    decreases a.len(),
{
    if a.len() == 0 {
        if b.len() == 0 {
            Ordering::Equal
        } else {
            Ordering::Less
        }
    } else if b.len() == 0 {
        Ordering::Greater
    } else if a[0] < b[0] {
        Ordering::Less
    } else if a[0] > b[0] {
        Ordering::Greater
    } else {
        cmp_text(a.drop_first(), b.drop_first())
    }
}

/// Compares two tokens: text comes before numbers; texts compare as texts and
/// numbers by value.
pub open spec fn cmp_token(a: TokenSpec, b: TokenSpec) -> Ordering {
    match a {
        TokenSpec::Text(x) => match b {
            TokenSpec::Text(y) => cmp_text(x, y),
            TokenSpec::Number(_) => Ordering::Less,
        },
        TokenSpec::Number(x) => match b {
            TokenSpec::Text(_) => Ordering::Greater,
            TokenSpec::Number(y) => cmp_nat(x, y),
        },
    }
}

/// Compares two token lists token by token; a proper prefix comes first.
pub open spec fn cmp_tokens(a: Seq<TokenSpec>, b: Seq<TokenSpec>) -> Ordering
    decreases a.len(),
{
    if a.len() == 0 {
        if b.len() == 0 {
            Ordering::Equal
        } else {
            Ordering::Less
        }
    } else if b.len() == 0 {
        Ordering::Greater
    } else if cmp_token(a[0], b[0]) != Ordering::Equal {
        cmp_token(a[0], b[0])
    } else {
        cmp_tokens(a.drop_first(), b.drop_first())
    }
}

/// The natural order of two file names: by their tokens.
pub open spec fn natural_cmp(a: Seq<char>, b: Seq<char>) -> Ordering {
    cmp_tokens(tokens_of(a), tokens_of(b))
}

/// The opposite outcome of a comparison.
pub open spec fn flip(o: Ordering) -> Ordering {
    match o {
        Ordering::Less => Ordering::Greater,
        Ordering::Equal => Ordering::Equal,
        Ordering::Greater => Ordering::Less,
    }
}

proof fn lemma_cmp_text_flip(a: Seq<char>, b: Seq<char>)
    ensures
        cmp_text(b, a) == flip(cmp_text(a, b)),
    decreases a.len(),
{
    if a.len() > 0 && b.len() > 0 && a[0] == b[0] {
        lemma_cmp_text_flip(a.drop_first(), b.drop_first());
    }
}

proof fn lemma_cmp_token_flip(a: TokenSpec, b: TokenSpec)
    ensures
        cmp_token(b, a) == flip(cmp_token(a, b)),
{
    match (a, b) {
        (TokenSpec::Text(x), TokenSpec::Text(y)) => lemma_cmp_text_flip(x, y),
        _ => {},
    }
}

/// Comparing the other way round gives the opposite outcome.
pub proof fn lemma_cmp_tokens_flip(a: Seq<TokenSpec>, b: Seq<TokenSpec>)
    ensures
        cmp_tokens(b, a) == flip(cmp_tokens(a, b)),
    decreases a.len(),
{
    if a.len() > 0 && b.len() > 0 {
        lemma_cmp_token_flip(a[0], b[0]);
        if cmp_token(a[0], b[0]) == Ordering::Equal {
            lemma_cmp_tokens_flip(a.drop_first(), b.drop_first());
        }
    }
}

proof fn lemma_cmp_text_equal(a: Seq<char>, b: Seq<char>)
    ensures
        cmp_text(a, b) == Ordering::Equal <==> a == b,
    decreases a.len(),
{
    if a.len() > 0 && b.len() > 0 && a[0] == b[0] {
        lemma_cmp_text_equal(a.drop_first(), b.drop_first());
        if a.drop_first() == b.drop_first() {
            assert(a =~= seq![a[0]] + a.drop_first());
            assert(b =~= seq![b[0]] + b.drop_first());
        }
    }
    if a.len() == 0 && b.len() == 0 {
        assert(a =~= b);
    }
    if a == b && a.len() > 0 {
        assert(a.drop_first() == b.drop_first());
    }
}

proof fn lemma_cmp_text_trans(a: Seq<char>, b: Seq<char>, c: Seq<char>)
    requires
        cmp_text(a, b) != Ordering::Greater,
        cmp_text(b, c) != Ordering::Greater,
    ensures
        cmp_text(a, c) != Ordering::Greater,
    decreases a.len(),
{
    if a.len() > 0 && b.len() > 0 && c.len() > 0 && a[0] == b[0] && b[0] == c[0] {
        lemma_cmp_text_trans(a.drop_first(), b.drop_first(), c.drop_first());
    }
}

proof fn lemma_cmp_token_equal(a: TokenSpec, b: TokenSpec)
    ensures
        cmp_token(a, b) == Ordering::Equal <==> a == b,
{
    match (a, b) {
        (TokenSpec::Text(x), TokenSpec::Text(y)) => lemma_cmp_text_equal(x, y),
        _ => {},
    }
}

proof fn lemma_cmp_token_trans(a: TokenSpec, b: TokenSpec, c: TokenSpec)
    requires
        cmp_token(a, b) != Ordering::Greater,
        cmp_token(b, c) != Ordering::Greater,
    ensures
        cmp_token(a, c) != Ordering::Greater,
{
    match (a, b, c) {
        (TokenSpec::Text(x), TokenSpec::Text(y), TokenSpec::Text(z)) => lemma_cmp_text_trans(
            x,
            y,
            z,
        ),
        _ => {},
    }
}

/// Two token lists compare equal exactly when they are the same.
pub proof fn lemma_cmp_tokens_equal(a: Seq<TokenSpec>, b: Seq<TokenSpec>)
    ensures
        cmp_tokens(a, b) == Ordering::Equal <==> a == b,
    decreases a.len(),
{
    if a.len() > 0 && b.len() > 0 {
        lemma_cmp_token_equal(a[0], b[0]);
        if a[0] == b[0] {
            lemma_cmp_tokens_equal(a.drop_first(), b.drop_first());
            if a.drop_first() == b.drop_first() {
                assert(a =~= seq![a[0]] + a.drop_first());
                assert(b =~= seq![b[0]] + b.drop_first());
            }
        }
    }
    if a.len() == 0 && b.len() == 0 {
        assert(a =~= b);
    }
    if a == b && a.len() > 0 {
        assert(a.drop_first() == b.drop_first());
    }
}

/// The order of token lists is transitive.
pub proof fn lemma_cmp_tokens_trans(a: Seq<TokenSpec>, b: Seq<TokenSpec>, c: Seq<TokenSpec>)
    requires
        cmp_tokens(a, b) != Ordering::Greater,
        cmp_tokens(b, c) != Ordering::Greater,
    ensures
        cmp_tokens(a, c) != Ordering::Greater,
    decreases a.len(),
{
    if a.len() > 0 && b.len() > 0 && c.len() > 0 {
        let (x, y, z) = (a[0], b[0], c[0]);
        lemma_cmp_token_equal(x, y);
        lemma_cmp_token_equal(y, z);
        lemma_cmp_token_equal(x, z);
        lemma_cmp_token_flip(x, y);
        lemma_cmp_token_trans(x, y, z);
        if cmp_token(x, y) == Ordering::Equal && cmp_token(y, z) == Ordering::Equal {
            lemma_cmp_tokens_trans(a.drop_first(), b.drop_first(), c.drop_first());
        }
    }
}

fn compare_text(a: &Vec<char>, b: &Vec<char>) -> (r: Ordering)
    ensures
        r == cmp_text(a@, b@),
{
    let mut i: usize = 0;
    assert(a@.skip(0) =~= a@ && b@.skip(0) =~= b@);
    while i < a.len() && i < b.len()
        invariant
            i <= a.len(),
            i <= b.len(),
            cmp_text(a@, b@) == cmp_text(a@.skip(i as int), b@.skip(i as int)),
        decreases a.len() - i,
    {
        if a[i] < b[i] {
            return Ordering::Less;
        }
        if a[i] > b[i] {
            return Ordering::Greater;
        }
        assert(a@.skip(i as int).drop_first() =~= a@.skip(i + 1));
        assert(b@.skip(i as int).drop_first() =~= b@.skip(i + 1));
        i = i + 1;
    }
    if i == a.len() {
        if i == b.len() {
            Ordering::Equal
        } else {
            Ordering::Less
        }
    } else {
        Ordering::Greater
    }
}

fn compare_token(a: &Token, b: &Token) -> (r: Ordering)
    ensures
        r == cmp_token(token_spec(*a), token_spec(*b)),
{
    match a {
        Token::Text(x) => match b {
            Token::Text(y) => compare_text(x, y),
            Token::Number(_) => Ordering::Less,
        },
        Token::Number(x) => match b {
            Token::Text(_) => Ordering::Greater,
            Token::Number(y) => {
                if *x < *y {
                    Ordering::Less
                } else if *x > *y {
                    Ordering::Greater
                } else {
                    Ordering::Equal
                }
            },
        },
    }
}

/// Compares two token lists in the order of `cmp_tokens`.
pub fn compare_tokens(a: &Vec<Token>, b: &Vec<Token>) -> (r: Ordering)
    ensures
        r == cmp_tokens(tokens_view(a@), tokens_view(b@)),
{
    let ghost av = tokens_view(a@);
    let ghost bv = tokens_view(b@);
    let mut i: usize = 0;
    assert(av.skip(0) =~= av && bv.skip(0) =~= bv);
    while i < a.len() && i < b.len()
        invariant
            i <= a.len(),
            i <= b.len(),
            av == tokens_view(a@),
            bv == tokens_view(b@),
            cmp_tokens(av, bv) == cmp_tokens(av.skip(i as int), bv.skip(i as int)),
        decreases a.len() - i,
    {
        let o = compare_token(&a[i], &b[i]);
        assert(av.skip(i as int)[0] == token_spec(a@[i as int]));
        assert(bv.skip(i as int)[0] == token_spec(b@[i as int]));
        match o {
            Ordering::Equal => {},
            _ => {
                return o;
            },
        }
        assert(av.skip(i as int).drop_first() =~= av.skip(i + 1));
        assert(bv.skip(i as int).drop_first() =~= bv.skip(i + 1));
        i = i + 1;
    }
    if i == a.len() {
        if i == b.len() {
            Ordering::Equal
        } else {
            Ordering::Less
        }
    } else {
        Ordering::Greater
    }
}

/// Compares two file names (without extension) in natural order: digit runs
/// by value, other runs without regard to case.
pub fn natural_sort_compare(a: &str, b: &str) -> (r: Ordering)
    ensures
        r == natural_cmp(a@, b@),
{
    let a_tokens = tokenize(a);
    let b_tokens = tokenize(b);
    compare_tokens(&a_tokens, &b_tokens)
}

/// One entry of a folder listing: its path, its file name without extension,
/// and its extension if it has one.
#[derive(Debug, Clone)]
pub struct FolderEntry {
    pub path: String,
    pub stem: String,
    pub extension: Option<String>,
}

/// The extension is `sgf` in any mix of ASCII case.
pub open spec fn is_sgf_ext(e: Seq<char>) -> bool {
    &&& e.len() == 3
    &&& (e[0] == 's' || e[0] == 'S')
    &&& (e[1] == 'g' || e[1] == 'G')
    &&& (e[2] == 'f' || e[2] == 'F')
}

/// The entry is a record file: its extension is `sgf`, in any ASCII case.
pub open spec fn is_record_file(e: FolderEntry) -> bool {
    e.extension matches Some(x) && is_sgf_ext(x@)
}

/// The record files of a listing, in listing order.
pub open spec fn record_files(entries: Seq<FolderEntry>) -> Seq<FolderEntry> {
    entries.filter(|e: FolderEntry| is_record_file(e))
}

/// Entry `i` comes no later in natural order of names than entry `i + 1`.
pub open spec fn ordered_at(s: Seq<FolderEntry>, i: int) -> bool {
    natural_cmp(s[i].stem@, s[i + 1].stem@) != Ordering::Greater
}

/// Each entry comes no later in natural order of names than the next one.
pub open spec fn in_natural_order(s: Seq<FolderEntry>) -> bool {
    forall|i: int| 0 <= i < s.len() - 1 ==> #[trigger] ordered_at(s, i)
}

/// Each entry comes no later in natural order of names than any entry after it.
pub open spec fn sorted_by_name(s: Seq<FolderEntry>) -> bool {
    forall|i: int, j: int|
        0 <= i < j < s.len() ==> natural_cmp(#[trigger] s[i].stem@, #[trigger] s[j].stem@)
            != Ordering::Greater
}

/// A list whose neighbours are in natural order is in natural order throughout.
pub proof fn lemma_neighbours_order_all(s: Seq<FolderEntry>)
    requires
        in_natural_order(s),
    ensures
        sorted_by_name(s),
{
    assert forall|i: int, j: int| 0 <= i < j < s.len() implies natural_cmp(
        #[trigger] s[i].stem@,
        #[trigger] s[j].stem@,
    ) != Ordering::Greater by {
        lemma_order_span(s, i, j);
    }
}

proof fn lemma_order_span(s: Seq<FolderEntry>, i: int, j: int)
    requires
        in_natural_order(s),
        0 <= i < j < s.len(),
    ensures
        natural_cmp(s[i].stem@, s[j].stem@) != Ordering::Greater,
    decreases j - i,
{
    assert(ordered_at(s, j - 1));
    if i < j - 1 {
        lemma_order_span(s, i, j - 1);
        lemma_cmp_tokens_trans(
            tokens_of(s[i].stem@),
            tokens_of(s[j - 1].stem@),
            tokens_of(s[j].stem@),
        );
    }
}

fn is_sgf_extension(ext: &Option<String>) -> (r: bool)
    ensures
        r == (ext matches Some(x) && is_sgf_ext(x@)),
{
    match ext {
        Some(x) => {
            let c = chars_of(x.as_str());
            c.len() == 3 && (c[0] == 's' || c[0] == 'S') && (c[1] == 'g' || c[1] == 'G') && (
            c[2] == 'f' || c[2] == 'F')
        },
        None => false,
    }
}

/// Each key holds the tokens of the name of the item at its index.
pub open spec fn keys_match(keys: Seq<Vec<Token>>, items: Seq<FolderEntry>) -> bool {
    &&& keys.len() == items.len()
    &&& forall|i: int|
        0 <= i < items.len() ==> tokens_view(#[trigger] keys[i]@) == tokens_of(items[i].stem@)
}

/// Inserts `e`, whose name has tokens `key`, after every item that does not
/// come after it in natural order.
fn insert_in_order(
    keys: &mut Vec<Vec<Token>>,
    items: &mut Vec<FolderEntry>,
    key: Vec<Token>,
    e: FolderEntry,
)
    requires
        keys_match(old(keys)@, old(items)@),
        in_natural_order(old(items)@),
        tokens_view(key@) == tokens_of(e.stem@),
    ensures
        keys_match(final(keys)@, final(items)@),
        in_natural_order(final(items)@),
        final(items)@.to_multiset() == old(items)@.to_multiset().insert(e),
{
    let mut p = keys.len();
    while p > 0 && matches!(compare_tokens(&keys[p - 1], &key), Ordering::Greater)
        invariant
            p <= keys.len(),
            keys_match(keys@, items@),
            p < keys.len() ==> cmp_tokens(tokens_view(keys@[p as int]@), tokens_view(key@))
                == Ordering::Greater,
        decreases p,
    {
        p = p - 1;
    }
    let ghost old_items = items@;
    let ghost old_keys = keys@;
    proof {
        if p < keys.len() {
            lemma_cmp_tokens_flip(tokens_view(keys@[p as int]@), tokens_view(key@));
        }
        if p > 0 {
            assert(tokens_view(old_keys[p - 1]@) == tokens_of(old_items[p - 1].stem@));
        }
        if p < keys.len() {
            assert(tokens_view(old_keys[p as int]@) == tokens_of(old_items[p as int].stem@));
        }
        vstd::seq_lib::to_multiset_insert(old_items, p as int, e);
    }
    proof {
        lemma_insert_keeps_order(old_items, p as int, e);
        lemma_insert_keeps_keys(old_keys, old_items, p as int, key, e);
    }
    keys.insert(p, key);
    items.insert(p, e);
}

proof fn lemma_insert_keeps_order(s: Seq<FolderEntry>, p: int, e: FolderEntry)
    requires
        in_natural_order(s),
        0 <= p <= s.len(),
        p > 0 ==> natural_cmp(s[p - 1].stem@, e.stem@) != Ordering::Greater,
        p < s.len() ==> natural_cmp(e.stem@, s[p].stem@) != Ordering::Greater,
    ensures
        in_natural_order(s.insert(p, e)),
{
    let t = s.insert(p, e);
    assert forall|i: int| 0 <= i < t.len() - 1 implies #[trigger] ordered_at(t, i) by {
        if i < p - 1 {
            assert(ordered_at(s, i));
            assert(t[i] == s[i] && t[i + 1] == s[i + 1]);
        } else if i == p - 1 {
            assert(t[i] == s[i] && t[i + 1] == e);
        } else if i == p {
            assert(t[i] == e && t[i + 1] == s[i]);
        } else {
            assert(ordered_at(s, i - 1));
            assert(t[i] == s[i - 1] && t[i + 1] == s[i]);
        }
    }
}

proof fn lemma_insert_keeps_keys(
    keys: Seq<Vec<Token>>,
    items: Seq<FolderEntry>,
    p: int,
    key: Vec<Token>,
    e: FolderEntry,
)
    requires
        keys_match(keys, items),
        0 <= p <= items.len(),
        tokens_view(key@) == tokens_of(e.stem@),
    ensures
        keys_match(keys.insert(p, key), items.insert(p, e)),
{
    let k = keys.insert(p, key);
    let t = items.insert(p, e);
    assert forall|i: int| 0 <= i < t.len() implies tokens_view(#[trigger] k[i]@) == tokens_of(
        t[i].stem@,
    ) by {
        if i < p {
            assert(k[i] == keys[i] && t[i] == items[i]);
        } else if i > p {
            assert(k[i] == keys[i - 1] && t[i] == items[i - 1]);
        }
    }
}

/// The record files of a listing, in natural order of their names; files
/// whose names are equal in that order keep their listing order.
pub fn order_entries(entries: Vec<FolderEntry>) -> (r: Vec<FolderEntry>)
    ensures
        r@.to_multiset() == record_files(entries@).to_multiset(),
        in_natural_order(r@),
        sorted_by_name(r@),
{
    let ghost all = entries@;
    let ghost keep = |e: FolderEntry| is_record_file(e);
    let mut keys: Vec<Vec<Token>> = Vec::new();
    let mut items: Vec<FolderEntry> = Vec::new();
    proof {
        assert(all.subrange(0, 0).filter(keep) =~= Seq::<FolderEntry>::empty());
        assert(items@ =~= Seq::<FolderEntry>::empty());
    }
    for e in it: entries.into_iter()
        invariant
            it.seq() == all,
            keep == (|e: FolderEntry| is_record_file(e)),
            keys_match(keys@, items@),
            items@.to_multiset() == all.subrange(0, it.index()).filter(keep).to_multiset(),
            in_natural_order(items@),
    {
        let ghost done = all.subrange(0, it.index());
        proof {
            assert(all.subrange(0, it.index() + 1) =~= done.push(e));
            done.lemma_filter_push(e, keep);
            vstd::seq_lib::to_multiset_build(done.filter(keep), e);
        }
        if is_sgf_extension(&e.extension) {
            let key = tokenize(e.stem.as_str());
            insert_in_order(&mut keys, &mut items, key, e);
        }
    }
    proof {
        assert(all.subrange(0, all.len() as int) =~= all);
        lemma_neighbours_order_all(items@);
    }
    items
}

/// What a playlist holds: its file paths in playing order and the index of the
/// current one.
pub struct PlaylistSpec {
    pub files: Seq<Seq<char>>,
    pub current: nat,
}

/// A list of record files to play one after the other.
pub struct PlaylistManager {
    files: Vec<String>,
    current_index: usize,
}

impl View for PlaylistManager {
    type V = PlaylistSpec;

    closed spec fn view(&self) -> PlaylistSpec {
        PlaylistSpec {
            files: self.files@.map_values(|f: String| f@),
            current: self.current_index as nat,
        }
    }
}

/// The paths of a list of entries.
pub open spec fn paths_of(s: Seq<FolderEntry>) -> Seq<Seq<char>> {
    s.map_values(|e: FolderEntry| e.path@)
}

impl PlaylistManager {
    /// There is at least one file and the current index points at one.
    pub open spec fn wf(&self) -> bool {
        self@.current < self@.files.len()
    }

    /// A playlist of the one file `path`.
    pub fn single(path: String) -> (p: Self)
        ensures
            p.wf(),
            p@.files == seq![path@],
            p@.current == 0,
    {
        let mut files: Vec<String> = Vec::new();
        files.push(path);
        let p = PlaylistManager { files, current_index: 0 };
        assert(p@.files =~= seq![path@]);
        p
    }

    /// A playlist of the record files of a folder listing, in natural order of
    /// their names, starting at the first; none when the listing holds no
    /// record file.
    pub fn from_folder(entries: Vec<FolderEntry>) -> (r: Option<Self>)
        ensures
            r is None <==> record_files(entries@).len() == 0,
            r matches Some(p) ==> {
                &&& p.wf()
                &&& p@.current == 0
                &&& exists|s: Seq<FolderEntry>|
                    {
                        &&& s.to_multiset() == record_files(entries@).to_multiset()
                        &&& sorted_by_name(s)
                        &&& p@.files == paths_of(s)
                    }
            },
    {
        let ghost kept = record_files(entries@);
        let ordered = order_entries(entries);
        let ghost s = ordered@;
        proof {
            vstd::seq_lib::to_multiset_len(s);
            vstd::seq_lib::to_multiset_len(kept);
        }
        if ordered.len() == 0 {
            return None;
        }
        let mut files: Vec<String> = Vec::new();
        for e in it: ordered.into_iter()
            invariant
                it.seq() == s,
                files@.map_values(|f: String| f@) == paths_of(s.subrange(0, it.index())),
        {
            let ghost before = files@;
            let ghost i = it.index();
            assert(e == s[i]);
            files.push(e.path);
            proof {
                assert(s.subrange(0, i + 1) =~= s.subrange(0, i).push(e));
                assert(files@.map_values(|f: String| f@) =~= before.map_values(|f: String| f@).push(
                    e.path@,
                ));
                assert(paths_of(s.subrange(0, i).push(e)) =~= paths_of(s.subrange(0, i)).push(
                    e.path@,
                ));
            }
        }
        let p = PlaylistManager { files, current_index: 0 };
        assert(s.subrange(0, s.len() as int) =~= s);
        assert(p@.files == paths_of(s));
        Some(p)
    }

    /// The path of the current file.
    pub fn current(&self) -> (r: &str)
        requires
            self.wf(),
        ensures
            r@ == self@.files[self@.current as int],
    {
        self.files[self.current_index].as_str()
    }

    /// Whether a file follows the current one.
    pub fn has_next(&self) -> (r: bool)
        requires
            self.wf(),
        ensures
            r == (self@.current + 1 < self@.files.len()),
    {
        assert(self@.files.len() == self.files.len());
        self.current_index + 1 < self.files.len()
    }

    /// Moves to the following file, if there is one.
    pub fn next(&mut self) -> (r: bool)
        requires
            old(self).wf(),
        ensures
            final(self).wf(),
            final(self)@.files == old(self)@.files,
            r == (old(self)@.current + 1 < old(self)@.files.len()),
            final(self)@.current == if r {
                old(self)@.current + 1
            } else {
                old(self)@.current
            },
    {
        assert(self@.files.len() == self.files.len());
        if self.has_next() {
            self.current_index = self.current_index + 1;
            true
        } else {
            false
        }
    }

    /// The path of the following file, if there is one.
    pub fn peek_next(&self) -> (r: Option<&str>)
        requires
            self.wf(),
        ensures
            match r {
                Some(f) => self@.current + 1 < self@.files.len() && f@ == self@.files[self@.current
                    + 1int],
                None => self@.current + 1 >= self@.files.len(),
            },
    {
        assert(self@.files.len() == self.files.len());
        if self.has_next() {
            Some(self.files[self.current_index + 1].as_str())
        } else {
            None
        }
    }

    /// Goes back to the first file.
    pub fn reset(&mut self)
        requires
            old(self).wf(),
        ensures
            final(self).wf(),
            final(self)@.files == old(self)@.files,
            final(self)@.current == 0,
    {
        self.current_index = 0;
    }

    /// Whether the playlist holds exactly one file.
    pub fn is_single_file(&self) -> (r: bool)
        ensures
            r == (self@.files.len() == 1),
    {
        self.files.len() == 1
    }

    /// Whether the playlist holds no file.
    pub fn is_empty(&self) -> (r: bool)
        ensures
            r == (self@.files.len() == 0),
    {
        self.files.len() == 0
    }
}

} // verus!
