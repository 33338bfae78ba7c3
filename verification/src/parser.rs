//! Parser for the nested key-value configuration format used by the
//! inventory manifests: quoted strings are tokens, braces open and close
//! objects, everything else between tokens is ignored.  Malformed or
//! truncated input never fails; the parser returns the tree built so far.

use vstd::prelude::*;

verus! {

/// Mathematical model of a parsed tree: a string leaf, or an object
/// holding its key/child pairs in insertion order.
pub enum KvTree {
    Str(Seq<char>),
    Obj(Seq<(Seq<char>, KvTree)>),
}

/// A node of the parsed tree: either a string leaf or an object holding
/// an ordered list of key/child pairs (unique keys; inserting an existing
/// key replaces its child in place, so the last write wins).
pub enum KeyValue {
    Str(String),
    Obj(Vec<(String, KeyValue)>),
}

impl KeyValue {
    /// The tree this node represents, with every string read as its
    /// sequence of characters.
    pub open spec fn deep(&self) -> KvTree
        decreases self,
    {
        match self {
            KeyValue::Str(s) => KvTree::Str(s@),
            KeyValue::Obj(entries) => KvTree::Obj(
                Seq::new(
                    entries@.len(),
                    |i: int|
                        if 0 <= i < entries@.len() {
                            (entries@[i].0@, entries@[i].1.deep())
                        } else {
                            (Seq::empty(), KvTree::Str(Seq::empty()))
                        },
                ),
            ),
        }
    }
}

/// The tokens of `s` from position `i` on, given the tokenizer state:
/// whether a quoted token is open, and the characters collected for it so
/// far.  A closing quote emits the collected token; braces outside quotes
/// are one-character tokens; every other unquoted character is dropped.
pub open spec fn spec_tokenize_from(
    s: Seq<char>,
    i: int,
    in_quote: bool,
    cur: Seq<char>,
) -> Seq<Seq<char>>
    decreases s.len() - i,
{
    if i < 0 || i >= s.len() {
        Seq::empty()
    } else {
        let c = s[i];
        if c == '"' {
            if in_quote {
                seq![cur] + spec_tokenize_from(s, i + 1, false, Seq::empty())
            } else {
                spec_tokenize_from(s, i + 1, true, Seq::empty())
            }
        } else if in_quote {
            spec_tokenize_from(s, i + 1, true, cur.push(c))
        } else if c == '{' || c == '}' {
            seq![seq![c]] + spec_tokenize_from(s, i + 1, false, cur)
        } else {
            spec_tokenize_from(s, i + 1, false, cur)
        }
    }
}

/// The token stream of a whole document.
pub open spec fn spec_tokenize(s: Seq<char>) -> Seq<Seq<char>> {
    spec_tokenize_from(s, 0, false, Seq::empty())
}

/// The tokenizer state carried by the scanning loop: the token characters
/// collected since the last opening quote, or nothing outside a quote.
pub open spec fn spec_cur(s: Seq<char>, in_quote: bool, tok_start: int, i: int) -> Seq<char> {
    if in_quote {
        s.subrange(tok_start, i)
    } else {
        Seq::empty()
    }
}

/// Splits the input into quoted-string tokens and single-character brace
/// tokens; an unterminated quote at the end of the input is dropped.
pub fn tokenize(input: &str) -> (tokens: Vec<String>)
    ensures
        tokens.deep_view() == spec_tokenize(input@),
{
    let len = input.unicode_len();
    let mut tokens: Vec<String> = Vec::new();
    let mut in_quote = false;
    let mut tok_start: usize = 0;
    let mut i: usize = 0;
    proof {
        assert(tokens.deep_view() + spec_tokenize(input@) =~= spec_tokenize(input@));
    }
    while i < len
        invariant
            i <= len,
            len == input@.len(),
            in_quote ==> tok_start <= i,
            spec_tokenize(input@) == tokens.deep_view() + spec_tokenize_from(
                input@,
                i as int,
                in_quote,
                spec_cur(input@, in_quote, tok_start as int, i as int),
            ),
        decreases len - i,
    {
        let ghost prev = tokens.deep_view();
        let ghost cur = spec_cur(input@, in_quote, tok_start as int, i as int);
        let c = input.get_char(i);
        if c == '"' {
            if in_quote {
                let tok = String::from_str(input.substring_char(tok_start, i));
                tokens.push(tok);
                in_quote = false;
                proof {
                    assert(tokens.deep_view() =~= prev.push(cur));
                    assert(prev + (seq![cur] + spec_tokenize_from(
                        input@,
                        i + 1,
                        false,
                        Seq::empty(),
                    )) =~= prev.push(cur) + spec_tokenize_from(input@, i + 1, false, Seq::empty()));
                }
            } else {
                in_quote = true;
                tok_start = i + 1;
                proof {
                    assert(spec_cur(input@, true, i + 1, i + 1) =~= Seq::<char>::empty());
                }
            }
        } else if in_quote {
            proof {
                assert(spec_cur(input@, true, tok_start as int, i + 1) =~= cur.push(c));
            }
        } else if c == '{' {
            let tok = String::from_str("{");
            proof {
                reveal_strlit("{");
            }
            tokens.push(tok);
            proof {
                assert(tok@ =~= seq!['{']);
                assert(tokens.deep_view() =~= prev.push(seq!['{']));
                assert(prev + (seq![seq!['{']] + spec_tokenize_from(input@, i + 1, false, cur))
                    =~= prev.push(seq!['{']) + spec_tokenize_from(input@, i + 1, false, cur));
            }
        } else if c == '}' {
            let tok = String::from_str("}");
            proof {
                reveal_strlit("}");
            }
            tokens.push(tok);
            proof {
                assert(tok@ =~= seq!['}']);
                assert(tokens.deep_view() =~= prev.push(seq!['}']));
                assert(prev + (seq![seq!['}']] + spec_tokenize_from(input@, i + 1, false, cur))
                    =~= prev.push(seq!['}']) + spec_tokenize_from(input@, i + 1, false, cur));
            }
        }
        i = i + 1;
    }
    proof {
        assert(spec_tokenize_from(input@, len as int, in_quote, spec_cur(input@, in_quote, tok_start as int, len as int)) =~= Seq::<Seq<char>>::empty());
        assert(tokens.deep_view() + Seq::<Seq<char>>::empty() =~= tokens.deep_view());
    }
    tokens
}

/// The position of `key` among `entries`, or -1 when absent.
pub open spec fn find_key(entries: Seq<(Seq<char>, KvTree)>, key: Seq<char>) -> int
    decreases entries.len(),
{
    if entries.len() == 0 {
        -1
    } else if entries[0].0 == key {
        0
    } else {
        let r = find_key(entries.drop_first(), key);
        if r < 0 {
            -1
        } else {
            r + 1
        }
    }
}

/// `find_key` names the first position of the key, and -1 means the
/// key is bound nowhere.
pub proof fn lemma_find_key(entries: Seq<(Seq<char>, KvTree)>, key: Seq<char>)
    ensures
        find_key(entries, key) >= 0 ==> {
            &&& find_key(entries, key) < entries.len()
            &&& entries[find_key(entries, key)].0 == key
            &&& forall|j: int| 0 <= j < find_key(entries, key) ==> entries[j].0 != key
        },
        find_key(entries, key) < 0 ==> forall|j: int|
            0 <= j < entries.len() ==> entries[j].0 != key,
    decreases entries.len(),
{
    if entries.len() > 0 && entries[0].0 != key {
        lemma_find_key(entries.drop_first(), key);
        assert(forall|j: int| 1 <= j < entries.len() ==> #[trigger] entries[j] == entries.drop_first()[j - 1]);
    }
}

/// Binding a key in an object: an existing key keeps its place and gets
/// the new child (last write wins); a new key goes at the end.
pub open spec fn insert_entry(
    entries: Seq<(Seq<char>, KvTree)>,
    key: Seq<char>,
    v: KvTree,
) -> Seq<(Seq<char>, KvTree)> {
    let j = find_key(entries, key);
    if j >= 0 {
        entries.update(j, (key, v))
    } else {
        entries.push((key, v))
    }
}

/// One object parsed from `tokens`, starting at `i` with the bindings
/// `acc` already made.  Mirrors one pass of the token stream: `}` closes
/// the object; a stray `{` is skipped; a key followed by `{` binds a
/// recursively parsed child object; a key followed by `}` is dropped with
/// the `}`; a key followed by a string binds that string; a key with no
/// token after it is dropped.  Returns the bindings and the position of
/// the first unconsumed token.
pub open spec fn spec_parse_at(
    tokens: Seq<Seq<char>>,
    i: int,
    acc: Seq<(Seq<char>, KvTree)>,
) -> (Seq<(Seq<char>, KvTree)>, int)
    decreases tokens.len() - i,
{
    if i < 0 || i >= tokens.len() {
        (acc, i)
    } else {
        let t = tokens[i];
        if t == seq!['}'] {
            (acc, i + 1)
        } else if t == seq!['{'] {
            spec_parse_at(tokens, i + 1, acc)
        } else if i + 1 >= tokens.len() {
            (acc, i + 1)
        } else {
            let v = tokens[i + 1];
            if v == seq!['{'] {
                let child = spec_parse_at(tokens, i + 2, Seq::empty());
                let j = if child.1 < i + 2 {
                    i + 2
                } else if child.1 > tokens.len() {
                    tokens.len() as int
                } else {
                    child.1
                };
                spec_parse_at(tokens, j, insert_entry(acc, t, KvTree::Obj(child.0)))
            } else if v == seq!['}'] {
                spec_parse_at(tokens, i + 2, acc)
            } else {
                spec_parse_at(tokens, i + 2, insert_entry(acc, t, KvTree::Str(v)))
            }
        }
    }
}

/// Parsing always advances past position `i` when a token stands there.
pub proof fn lemma_parse_at_advances(tokens: Seq<Seq<char>>, i: int, acc: Seq<(Seq<char>, KvTree)>)
    ensures
        spec_parse_at(tokens, i, acc).1 >= i,
        0 <= i < tokens.len() ==> spec_parse_at(tokens, i, acc).1 >= i + 1,
    decreases tokens.len() - i,
{
    if 0 <= i < tokens.len() {
        let t = tokens[i];
        if t == seq!['}'] {
        } else if t == seq!['{'] {
            lemma_parse_at_advances(tokens, i + 1, acc);
        } else if i + 1 >= tokens.len() {
        } else {
            let v = tokens[i + 1];
            if v == seq!['{'] {
                let child = spec_parse_at(tokens, i + 2, Seq::empty());
                lemma_parse_at_advances(tokens, i + 2, Seq::empty());
                let j = if child.1 < i + 2 {
                    i + 2
                } else if child.1 > tokens.len() {
                    tokens.len() as int
                } else {
                    child.1
                };
                lemma_parse_at_advances(tokens, j, insert_entry(acc, t, KvTree::Obj(child.0)));
            } else if v == seq!['}'] {
                lemma_parse_at_advances(tokens, i + 2, acc);
            } else {
                lemma_parse_at_advances(tokens, i + 2, insert_entry(acc, t, KvTree::Str(v)));
            }
        }
    }
}

/// The trees of an entry list, with every string read as its characters.
pub open spec fn entries_deep(entries: Seq<(String, KeyValue)>) -> Seq<(Seq<char>, KvTree)> {
    Seq::new(
        entries.len(),
        |i: int|
            if 0 <= i < entries.len() {
                (entries[i].0@, entries[i].1.deep())
            } else {
                (Seq::empty(), KvTree::Str(Seq::empty()))
            },
    )
}

/// An object node represents exactly the trees of its entry list.
pub proof fn lemma_obj_deep(kv: &KeyValue)
    ensures
        kv matches KeyValue::Obj(entries) ==> kv.deep() == KvTree::Obj(entries_deep(entries@)),
{
    match kv {
        KeyValue::Str(_) => {},
        KeyValue::Obj(entries) => {
            assert(kv.deep() is Obj);
            assert(kv.deep()->Obj_0 =~= entries_deep(entries@));
        },
    }
}

/// True when the token is the single character `c`.
fn is_char_token(t: &String, c: char) -> (r: bool)
    ensures
        r == (t@ == seq![c]),
{
    let r = t.as_str().unicode_len() == 1 && t.as_str().get_char(0) == c;
    proof {
        if r {
            assert(t@ =~= seq![c]);
        } else if t@ == seq![c] {
            assert(t@.len() == 1 && t@[0] == c);
        }
    }
    r
}

/// Binds `key` to `v` in the entry list: replaces the child of an
/// existing key in place, appends a new key at the end.
fn obj_insert(entries: &mut Vec<(String, KeyValue)>, key: String, v: KeyValue)
    ensures
        entries_deep(final(entries)@) == insert_entry(entries_deep(old(entries)@), key@, v.deep()),
{
    let ghost deep0 = entries_deep(entries@);
    let ghost keyv = key@;
    let ghost vd = v.deep();
    let n = entries.len();
    let mut k: usize = 0;
    while k < n
        invariant
            k <= n,
            n == entries@.len(),
            entries@ == old(entries)@,
            deep0 == entries_deep(entries@),
            keyv == key@,
            vd == v.deep(),
            forall|j: int| 0 <= j < k ==> deep0[j].0 != keyv,
        decreases n - k,
    {
        if entries[k].0 == key {
            let ghost before = entries@;
            entries[k] = (key, v);
            proof {
                lemma_find_key(deep0, keyv);
                assert(deep0[k as int].0 == keyv);
                assert(find_key(deep0, keyv) == k);
                assert(entries@ == before.update(k as int, (entries@[k as int].0, entries@[k as int].1)));
                assert(entries@[k as int].0@ == keyv);
                assert(entries@[k as int].1.deep() == vd);
                assert(entries_deep(entries@) =~= deep0.update(k as int, (keyv, vd)));
            }
            return ;
        }
        k = k + 1;
    }
    entries.push((key, v));
    proof {
        lemma_find_key(deep0, keyv);
        assert(find_key(deep0, keyv) < 0);
        assert(entries_deep(entries@) =~= deep0.push((keyv, vd)));
    }
}

/// Parses one object from the token stream, starting at `start`, exactly
/// as `spec_parse_at` describes; returns the entries and the position of
/// the first unconsumed token.
fn parse_object_at(tokens: &Vec<String>, start: usize) -> (res: (Vec<(String, KeyValue)>, usize))
    requires
        start <= tokens@.len(),
    ensures
        entries_deep(res.0@) == spec_parse_at(tokens.deep_view(), start as int, Seq::empty()).0,
        res.1 as int == spec_parse_at(tokens.deep_view(), start as int, Seq::empty()).1,
        start <= res.1 <= tokens@.len(),
    decreases tokens@.len() - start,
{
    let ghost toks = tokens.deep_view();
    let n = tokens.len();
    let mut acc: Vec<(String, KeyValue)> = Vec::new();
    let mut i: usize = start;
    proof {
        assert(entries_deep(acc@) =~= Seq::<(Seq<char>, KvTree)>::empty());
    }
    while i < n
        invariant
            start <= i <= n,
            n == tokens@.len(),
            toks == tokens.deep_view(),
            toks.len() == n,
            forall|j: int| 0 <= j < n ==> toks[j] == tokens@[j]@,
            spec_parse_at(toks, start as int, Seq::empty()) == spec_parse_at(
                toks,
                i as int,
                entries_deep(acc@),
            ),
        decreases n - i,
    {
        let ghost acc0 = entries_deep(acc@);
        if is_char_token(&tokens[i], '}') {
            i = i + 1;
            return (acc, i);
        } else if is_char_token(&tokens[i], '{') {
            i = i + 1;
        } else if i + 1 >= n {
            i = i + 1;
            return (acc, i);
        } else {
            let key = tokens[i].clone();
            if is_char_token(&tokens[i + 1], '{') {
                let child = parse_object_at(tokens, i + 2);
                proof {
                    lemma_parse_at_advances(toks, i + 2, Seq::empty());
                }
                let node = KeyValue::Obj(child.0);
                proof {
                    lemma_obj_deep(&node);
                }
                obj_insert(&mut acc, key, node);
                i = child.1;
            } else if is_char_token(&tokens[i + 1], '}') {
                i = i + 2;
            } else {
                let v = tokens[i + 1].clone();
                obj_insert(&mut acc, key, KeyValue::Str(v));
                i = i + 2;
            }
        }
    }
    (acc, i)
}

/// The child bound under `key`, when the tree is an object that binds it.
pub open spec fn kv_get(t: KvTree, key: Seq<char>) -> Option<KvTree> {
    match t {
        KvTree::Str(_) => None,
        KvTree::Obj(entries) => {
            let j = find_key(entries, key);
            if j >= 0 {
                Some(entries[j].1)
            } else {
                None
            }
        },
    }
}

/// Character-for-character string equality.
pub fn str_eq(a: &str, b: &str) -> (r: bool)
    ensures
        r == (a@ == b@),
{
    let alen = a.unicode_len();
    let blen = b.unicode_len();
    if alen != blen {
        return false;
    }
    let mut i: usize = 0;
    while i < alen
        invariant
            i <= alen,
            alen == a@.len(),
            alen == b@.len(),
            forall|j: int| 0 <= j < i ==> a@[j] == b@[j],
        decreases alen - i,
    {
        if a.get_char(i) != b.get_char(i) {
            return false;
        }
        i = i + 1;
    }
    proof {
        assert(a@ =~= b@);
    }
    true
}

impl KeyValue {
    /// Looks `key` up in this node: its child when this is an object
    /// binding the key, nothing otherwise.
    pub fn get<'a>(&'a self, key: &str) -> (r: Option<&'a KeyValue>)
        ensures
            match r {
                Some(v) => kv_get(self.deep(), key@) == Some(v.deep()),
                None => kv_get(self.deep(), key@) is None,
            },
    {
        proof {
            lemma_obj_deep(self);
        }
        match self {
            KeyValue::Str(_) => None,
            KeyValue::Obj(entries) => {
                let ghost deep0 = entries_deep(entries@);
                let n = entries.len();
                let mut k: usize = 0;
                while k < n
                    invariant
                        k <= n,
                        n == entries@.len(),
                        deep0 == entries_deep(entries@),
                        self.deep() == KvTree::Obj(deep0),
                        forall|j: int| 0 <= j < k ==> deep0[j].0 != key@,
                    decreases n - k,
                {
                    if str_eq(entries[k].0.as_str(), key) {
                        proof {
                            lemma_find_key(deep0, key@);
                            assert(deep0[k as int].0 == key@);
                            assert(find_key(deep0, key@) == k);
                        }
                        return Some(&entries[k].1);
                    }
                    k = k + 1;
                }
                proof {
                    lemma_find_key(deep0, key@);
                }
                None
            },
        }
    }

    /// The string this leaf holds, or nothing for an object node.
    pub fn as_str<'a>(&'a self) -> (r: Option<&'a String>)
        ensures
            match r {
                Some(s) => self.deep() == KvTree::Str(s@),
                None => self.deep() is Obj,
            },
    {
        match self {
            KeyValue::Str(s) => Some(s),
            KeyValue::Obj(_) => None,
        }
    }

    /// The ordered entry list of this object, or nothing for a leaf.
    pub fn obj_entries<'a>(&'a self) -> (r: Option<&'a Vec<(String, KeyValue)>>)
        ensures
            match r {
                Some(es) => self.deep() == KvTree::Obj(entries_deep(es@)),
                None => self.deep() is Str,
            },
    {
        proof {
            lemma_obj_deep(self);
        }
        match self {
            KeyValue::Str(_) => None,
            KeyValue::Obj(entries) => Some(entries),
        }
    }
}

/// Parses a whole document: the implicit top-level object built from the
/// document's token stream.
pub fn parse_vdf(input: &str) -> (r: KeyValue)
    ensures
        r.deep() == KvTree::Obj(spec_parse_at(spec_tokenize(input@), 0, Seq::empty()).0),
{
    let tokens = tokenize(input);
    let root = parse_object_at(&tokens, 0);
    let r = KeyValue::Obj(root.0);
    proof {
        lemma_obj_deep(&r);
    }
    r
}


/// A string that can stand as one token of a document: it holds no quote
/// character, and it is not itself a bare brace.
pub open spec fn clean_str(s: Seq<char>) -> bool {
    &&& forall|i: int| 0 <= i < s.len() ==> s[i] != '"'
    &&& s != seq!['{']
    &&& s != seq!['}']
}

/// A well-formed tree: every string is clean, and within each object the
/// keys are distinct.
pub open spec fn wf_tree(t: KvTree) -> bool
    decreases t,
{
    match t {
        KvTree::Str(s) => clean_str(s),
        KvTree::Obj(es) => wf_entries(es),
    }
}

pub open spec fn wf_entries(es: Seq<(Seq<char>, KvTree)>) -> bool
    decreases es,
{
    if es.len() == 0 {
        true
    } else {
        &&& clean_str(es[0].0)
        &&& wf_tree(es[0].1)
        &&& (forall|j: int| 1 <= j < es.len() ==> (#[trigger] es[j]).0 != es[0].0)
        &&& wf_entries(es.drop_first())
    }
}

/// The token stream of one bound value: a string is one token, an object
/// is its entries' tokens inside braces.
pub open spec fn tok_value(t: KvTree) -> Seq<Seq<char>>
    decreases t,
{
    match t {
        KvTree::Str(s) => seq![s],
        KvTree::Obj(es) => seq![seq!['{']] + tok_entries(es) + seq![seq!['}']],
    }
}

/// The token stream of an entry list: key token, value tokens, repeated.
pub open spec fn tok_entries(es: Seq<(Seq<char>, KvTree)>) -> Seq<Seq<char>>
    decreases es,
{
    if es.len() == 0 {
        Seq::empty()
    } else {
        seq![es[0].0] + tok_value(es[0].1) + tok_entries(es.drop_first())
    }
}

/// The parser consumes exactly the serialized tokens of a well-formed
/// entry list, binding every pair in order: starting at `i` with the
/// bindings `acc` already made (none of them under a key the list uses),
/// it arrives at the end of the list's tokens with `acc` extended by
/// exactly the list.
pub proof fn lemma_parse_round_trip_at(
    toks: Seq<Seq<char>>,
    i: int,
    es: Seq<(Seq<char>, KvTree)>,
    acc: Seq<(Seq<char>, KvTree)>,
)
    requires
        0 <= i,
        i + tok_entries(es).len() <= toks.len(),
        toks.subrange(i, i + tok_entries(es).len() as int) == tok_entries(es),
        wf_entries(es),
        forall|j: int, l: int| 0 <= j < acc.len() && 0 <= l < es.len() ==> acc[j].0 != es[l].0,
    ensures
        spec_parse_at(toks, i, acc) == spec_parse_at(
            toks,
            i + tok_entries(es).len(),
            acc + es,
        ),
    decreases tok_entries(es).len(),
{
    let full = tok_entries(es);
    let len = full.len() as int;
    if es.len() == 0 {
        assert(acc + es =~= acc);
    } else {
        let k = es[0].0;
        let v = es[0].1;
        let rest = es.drop_first();
        let tv = tok_value(v);
        let te_rest = tok_entries(rest);
        assert(clean_str(es[0].0) && wf_tree(es[0].1) && wf_entries(es.drop_first()));
        assert(wf_tree(v));
        assert(full == seq![k] + tv + te_rest);
        assert(tv.len() >= 1);
        assert(toks[i] == toks.subrange(i, i + len)[0]);
        assert(toks[i] == k);
        assert(clean_str(k));
        assert(toks[i + 1] == toks.subrange(i, i + len)[1]);
        assert(toks[i + 1] == tv[0]);
        // the key is bound by a push, never an in-place replacement
        lemma_find_key(acc, k);
        if find_key(acc, k) >= 0 {
            assert(acc[find_key(acc, k)].0 == es[0].0);
            assert(false);
        }
        match v {
            KvTree::Str(s) => {
                assert(tv == seq![s]);
                assert(toks[i + 1] == s);
                assert(clean_str(s));
                let acc2 = insert_entry(acc, k, KvTree::Str(s));
                assert(acc2 == acc.push((k, v)));
                assert(spec_parse_at(toks, i, acc) == spec_parse_at(toks, i + 2, acc2));
                assert(toks.subrange(i + 2, i + 2 + te_rest.len()) =~= te_rest) by {
                    assert(forall|t: int|
                        0 <= t < te_rest.len() ==> toks.subrange(i, i + len)[2 + t] == #[trigger] te_rest[t]);
                }
                assert forall|j: int, l: int|
                    0 <= j < acc2.len() && 0 <= l < rest.len() implies acc2[j].0 != rest[l].0 by {
                    assert(rest[l] == es[l + 1]);
                    if j < acc.len() {
                        assert(acc2[j] == acc[j]);
                    } else {
                        assert(acc2[j].0 == k);
                    }
                }
                lemma_parse_round_trip_at(toks, i + 2, rest, acc2);
                assert(acc2 + rest =~= acc + es) by {
                    assert(forall|t: int| 0 <= t < rest.len() ==> #[trigger] rest[t] == es[t + 1]);
                }
            },
            KvTree::Obj(ces) => {
                let te_c = tok_entries(ces);
                assert(tv == seq![seq!['{']] + te_c + seq![seq!['}']]);
                assert(toks[i + 1] == seq!['{']);
                assert(wf_entries(ces));
                assert(toks.subrange(i + 2, i + 2 + te_c.len()) =~= te_c) by {
                    assert(forall|t: int|
                        0 <= t < te_c.len() ==> toks.subrange(i, i + len)[2 + t] == #[trigger] te_c[t]);
                    assert(forall|t: int| 0 <= t < te_c.len() ==> #[trigger] tv[1 + t] == te_c[t]);
                }
                assert(te_c.len() < len);
                lemma_parse_round_trip_at(toks, i + 2, ces, Seq::empty());
                let j0 = i + 2 + te_c.len();
                assert(Seq::<(Seq<char>, KvTree)>::empty() + ces =~= ces);
                assert(spec_parse_at(toks, i + 2, Seq::empty()) == spec_parse_at(toks, j0, ces));
                assert(toks[j0] == toks.subrange(i, i + len)[2 + te_c.len() as int]);
                assert(toks[j0] == tv[1 + te_c.len() as int]);
                assert(toks[j0] == seq!['}']);
                assert(spec_parse_at(toks, j0, ces) == (ces, j0 + 1));
                let acc2 = insert_entry(acc, k, KvTree::Obj(ces));
                assert(acc2 == acc.push((k, v)));
                assert(spec_parse_at(toks, i, acc) == spec_parse_at(toks, j0 + 1, acc2));
                assert(toks.subrange(j0 + 1, j0 + 1 + te_rest.len()) =~= te_rest) by {
                    assert(forall|t: int|
                        0 <= t < te_rest.len() ==> toks.subrange(i, i + len)[1 + tv.len() + t]
                            == #[trigger] te_rest[t]);
                }
                assert forall|j: int, l: int|
                    0 <= j < acc2.len() && 0 <= l < rest.len() implies acc2[j].0 != rest[l].0 by {
                    assert(rest[l] == es[l + 1]);
                    if j < acc.len() {
                        assert(acc2[j] == acc[j]);
                    } else {
                        assert(acc2[j].0 == k);
                    }
                }
                lemma_parse_round_trip_at(toks, j0 + 1, rest, acc2);
                assert(acc2 + rest =~= acc + es) by {
                    assert(forall|t: int| 0 <= t < rest.len() ==> #[trigger] rest[t] == es[t + 1]);
                }
                assert(j0 + 1 + te_rest.len() == i + len);
            },
        }
    }
}

/// Parser round trip: a document serialized from any well-formed tree
/// parses back to exactly that tree, keys in the same order.
pub proof fn lemma_parse_round_trip(es: Seq<(Seq<char>, KvTree)>)
    requires
        wf_entries(es),
    ensures
        spec_parse_at(tok_entries(es), 0, Seq::empty()) == (
            es,
            tok_entries(es).len() as int,
        ),
{
    let toks = tok_entries(es);
    assert(toks.subrange(0, toks.len() as int) =~= toks);
    lemma_parse_round_trip_at(toks, 0, es, Seq::empty());
    assert(Seq::<(Seq<char>, KvTree)>::empty() + es =~= es);
}

/// Parser robustness at a truncation point: a trailing key token with no
/// value after it is dropped, never bound to an invented value — the
/// truncated document parses to exactly the entries of the whole one.
pub proof fn lemma_parse_dangling_key(es: Seq<(Seq<char>, KvTree)>, k: Seq<char>)
    requires
        wf_entries(es),
        clean_str(k),
    ensures
        spec_parse_at(tok_entries(es).push(k), 0, Seq::empty()).0 == es,
{
    let toks = tok_entries(es).push(k);
    let len = tok_entries(es).len() as int;
    assert(toks.subrange(0, len) =~= tok_entries(es));
    lemma_parse_round_trip_at(toks, 0, es, Seq::empty());
    assert(Seq::<(Seq<char>, KvTree)>::empty() + es =~= es);
    assert(toks[len] == k);
    assert(spec_parse_at(toks, len, es) == (es, len + 1));
}

/// A string wrapped in quote delimiters.
pub open spec fn quote(s: Seq<char>) -> Seq<char> {
    seq!['"'] + s + seq!['"']
}

/// The document text of one bound value.
pub open spec fn ser_value(t: KvTree) -> Seq<char>
    decreases t,
{
    match t {
        KvTree::Str(s) => quote(s),
        KvTree::Obj(es) => seq!['{'] + ser_entries(es) + seq!['}'],
    }
}

/// The document text of an entry list: quoted key, value text, repeated.
pub open spec fn ser_entries(es: Seq<(Seq<char>, KvTree)>) -> Seq<char>
    decreases es,
{
    if es.len() == 0 {
        Seq::empty()
    } else {
        quote(es[0].0) + ser_value(es[0].1) + ser_entries(es.drop_first())
    }
}

/// Scanning from position `m` is scanning the rest of the input from its
/// start.
pub proof fn lemma_tok_skip(x: Seq<char>, m: int, q: bool, cur: Seq<char>)
    requires
        0 <= m <= x.len(),
    ensures
        spec_tokenize_from(x, m, q, cur) == spec_tokenize_from(x.skip(m), 0, q, cur),
    decreases x.len() - m,
{
    if m == x.len() {
        assert(x.skip(m).len() == 0);
    } else {
        assert(x.skip(m)[0] == x[m]);
        lemma_tok_skip(x, m + 1, q, cur);
        lemma_tok_skip(x, m + 1, true, Seq::empty());
        lemma_tok_skip(x, m + 1, false, Seq::empty());
        lemma_tok_skip(x, m + 1, true, cur.push(x[m]));
        lemma_tok_skip(x, m + 1, false, cur);
        assert(x.skip(m).skip(1) =~= x.skip(m + 1));
        lemma_tok_skip(x.skip(m), 1, q, cur);
        lemma_tok_skip(x.skip(m), 1, true, Seq::empty());
        lemma_tok_skip(x.skip(m), 1, false, Seq::empty());
        lemma_tok_skip(x.skip(m), 1, true, cur.push(x[m]));
        lemma_tok_skip(x.skip(m), 1, false, cur);
    }
}

/// Scanning the inside of a quoted clean string: the collected prefix
/// grows until the closing quote emits the whole string.
pub proof fn lemma_tok_in_quote(s: Seq<char>, j: int, rest: Seq<char>)
    requires
        0 <= j <= s.len(),
        forall|i: int| 0 <= i < s.len() ==> s[i] != '"',
    ensures
        spec_tokenize_from(quote(s) + rest, 1 + j, true, s.take(j)) == seq![s]
            + spec_tokenize_from(rest, 0, false, Seq::empty()),
    decreases s.len() - j,
{
    let x = quote(s) + rest;
    if j == s.len() {
        assert(x[1 + j] == '"');
        assert(s.take(j) =~= s);
        lemma_tok_skip(x, 2 + j, false, Seq::empty());
        assert(x.skip(2 + j) =~= rest);
    } else {
        assert(x[1 + j] == s[j]);
        assert(s[j] != '"');
        assert(s.take(j).push(s[j]) =~= s.take(j + 1));
        lemma_tok_in_quote(s, j + 1, rest);
    }
}

/// A quoted clean string at the front of the input is one token.
pub proof fn lemma_tok_quoted(s: Seq<char>, rest: Seq<char>)
    requires
        forall|i: int| 0 <= i < s.len() ==> s[i] != '"',
    ensures
        spec_tokenize_from(quote(s) + rest, 0, false, Seq::empty()) == seq![s]
            + spec_tokenize_from(rest, 0, false, Seq::empty()),
{
    let x = quote(s) + rest;
    assert(x[0] == '"');
    assert(s.take(0) =~= Seq::<char>::empty());
    lemma_tok_in_quote(s, 0, rest);
}

/// A brace at the front of the input is one token.
pub proof fn lemma_tok_brace(c: char, rest: Seq<char>)
    requires
        c == '{' || c == '}',
    ensures
        spec_tokenize_from(seq![c] + rest, 0, false, Seq::empty()) == seq![seq![c]]
            + spec_tokenize_from(rest, 0, false, Seq::empty()),
{
    let x = seq![c] + rest;
    assert(x[0] == c);
    lemma_tok_skip(x, 1, false, Seq::empty());
    assert(x.skip(1) =~= rest);
}

/// Tokenizing the document text of a well-formed entry list yields
/// exactly its token stream, whatever text follows.
pub proof fn lemma_tokenize_entries(es: Seq<(Seq<char>, KvTree)>, tail: Seq<char>)
    requires
        wf_entries(es),
    ensures
        spec_tokenize_from(ser_entries(es) + tail, 0, false, Seq::empty()) == tok_entries(es)
            + spec_tokenize_from(tail, 0, false, Seq::empty()),
    decreases ser_entries(es).len(),
{
    if es.len() == 0 {
        assert(ser_entries(es) + tail =~= tail);
        assert(tok_entries(es) + spec_tokenize_from(tail, 0, false, Seq::empty())
            =~= spec_tokenize_from(tail, 0, false, Seq::empty()));
    } else {
        let k = es[0].0;
        let v = es[0].1;
        let rest = es.drop_first();
        assert(clean_str(es[0].0) && wf_tree(es[0].1) && wf_entries(es.drop_first()));
        assert(wf_tree(v));
        let after_key = ser_value(v) + ser_entries(rest) + tail;
        assert(ser_entries(es) + tail =~= quote(k) + after_key);
        lemma_tok_quoted(k, after_key);
        match v {
            KvTree::Str(s) => {
                let after_val = ser_entries(rest) + tail;
                assert(after_key =~= quote(s) + after_val);
                lemma_tok_quoted(s, after_val);
                assert(ser_entries(rest).len() < ser_entries(es).len());
                lemma_tokenize_entries(rest, tail);
                assert(tok_entries(es) == seq![k] + tok_value(v) + tok_entries(rest));
                assert(tok_value(v) == seq![s]);
                assert(seq![k] + (seq![s] + (tok_entries(rest) + spec_tokenize_from(
                    tail,
                    0,
                    false,
                    Seq::empty(),
                ))) =~= tok_entries(es) + spec_tokenize_from(tail, 0, false, Seq::empty()));
            },
            KvTree::Obj(ces) => {
                let tail2 = seq!['}'] + ser_entries(rest) + tail;
                assert(after_key =~= seq!['{'] + (ser_entries(ces) + tail2));
                lemma_tok_brace('{', ser_entries(ces) + tail2);
                assert(ser_entries(ces).len() < ser_entries(es).len());
                lemma_tokenize_entries(ces, tail2);
                assert(tail2 =~= seq!['}'] + (ser_entries(rest) + tail));
                lemma_tok_brace('}', ser_entries(rest) + tail);
                assert(ser_entries(rest).len() < ser_entries(es).len());
                lemma_tokenize_entries(rest, tail);
                assert(tok_entries(es) == seq![k] + tok_value(v) + tok_entries(rest));
                assert(tok_value(v) == seq![seq!['{']] + tok_entries(ces) + seq![seq!['}']]);
                assert(seq![k] + (seq![seq!['{']] + (tok_entries(ces) + (seq![seq!['}']] + (
                tok_entries(rest) + spec_tokenize_from(tail, 0, false, Seq::empty()))))) =~= tok_entries(
                    es,
                ) + spec_tokenize_from(tail, 0, false, Seq::empty()));
            },
        }
    }
}

/// Full round trip (parser well-formedness): the document text written
/// from any well-formed tree tokenizes to the tree's token stream and
/// parses back to exactly that tree, keys in writing order.
pub proof fn lemma_document_round_trip(es: Seq<(Seq<char>, KvTree)>)
    requires
        wf_entries(es),
    ensures
        spec_tokenize(ser_entries(es)) == tok_entries(es),
        spec_parse_at(spec_tokenize(ser_entries(es)), 0, Seq::empty()).0 == es,
{
    lemma_tokenize_entries(es, Seq::empty());
    assert(ser_entries(es) + Seq::<char>::empty() =~= ser_entries(es));
    assert(spec_tokenize_from(Seq::empty(), 0, false, Seq::empty())
        =~= Seq::<Seq<char>>::empty());
    assert(tok_entries(es) + Seq::<Seq<char>>::empty() =~= tok_entries(es));
    lemma_parse_round_trip(es);
}

/// Well-formedness carries over to any prefix of an entry list.
pub proof fn lemma_wf_entries_prefix(es: Seq<(Seq<char>, KvTree)>, m: int)
    requires
        wf_entries(es),
        0 <= m <= es.len(),
    ensures
        wf_entries(es.take(m)),
    decreases es.len(),
{
    if m > 0 {
        let p = es.take(m);
        assert(p[0] == es[0]);
        assert(clean_str(es[0].0) && wf_tree(es[0].1) && wf_entries(es.drop_first()));
        assert(forall|j: int| 1 <= j < p.len() ==> (#[trigger] p[j]).0 != p[0].0) by {
            assert(forall|j: int| 1 <= j < p.len() ==> #[trigger] p[j] == es[j]);
        }
        lemma_wf_entries_prefix(es.drop_first(), m - 1);
        assert(p.drop_first() =~= es.drop_first().take(m - 1));
    }
}

/// Parser robustness at a pair boundary: a well-formed document cut off
/// after any number of complete pairs still parses, to exactly those
/// pairs — truncation loses the tail and corrupts nothing before it.
pub proof fn lemma_truncated_document(es: Seq<(Seq<char>, KvTree)>, m: int)
    requires
        wf_entries(es),
        0 <= m <= es.len(),
    ensures
        spec_parse_at(spec_tokenize(ser_entries(es.take(m))), 0, Seq::empty()).0 == es.take(m),
{
    lemma_wf_entries_prefix(es, m);
    lemma_document_round_trip(es.take(m));
}

/// A character the tokenizer ignores outside quotes.
pub open spec fn is_filler(c: char) -> bool {
    c != '"' && c != '{' && c != '}'
}

/// Ignored characters before the next token change nothing: the token
/// stream of the input after them is the token stream of the whole.
pub proof fn lemma_tok_filler_prefix(f: Seq<char>, rest: Seq<char>)
    requires
        forall|i: int| 0 <= i < f.len() ==> is_filler(#[trigger] f[i]),
    ensures
        spec_tokenize_from(f + rest, 0, false, Seq::empty()) == spec_tokenize_from(
            rest,
            0,
            false,
            Seq::empty(),
        ),
    decreases f.len(),
{
    if f.len() == 0 {
        assert(f + rest =~= rest);
    } else {
        let x = f + rest;
        assert(x[0] == f[0]);
        lemma_tok_skip(x, 1, false, Seq::empty());
        assert(x.skip(1) =~= f.drop_first() + rest);
        lemma_tok_filler_prefix(f.drop_first(), rest);
    }
}

/// Parser well-formedness in full: any input text whose token stream is
/// the serialized tokens of a well-formed tree — the canonical text, or
/// the same with any ignored characters between the tokens — parses back
/// to exactly that tree, keys in writing order.
pub proof fn lemma_any_text_round_trip(s: Seq<char>, es: Seq<(Seq<char>, KvTree)>)
    requires
        wf_entries(es),
        spec_tokenize(s) == tok_entries(es),
    ensures
        spec_parse_at(spec_tokenize(s), 0, Seq::empty()).0 == es,
{
    lemma_parse_round_trip(es);
}

/// Prepending the same tokens to both sides keeps the prefix relation.
pub proof fn lemma_prefix_prepend(p: Seq<Seq<char>>, a: Seq<Seq<char>>, b: Seq<Seq<char>>)
    requires
        a.is_prefix_of(b),
    ensures
        (p + a).is_prefix_of(p + b),
{
    assert((p + a) =~= (p + b).subrange(0, p.len() + a.len() as int));
}

/// Cutting the input anywhere loses only later tokens and the one being
/// collected: the tokens of any prefix of the input are a prefix of the
/// tokens of the whole input.
pub proof fn lemma_tok_take(s: Seq<char>, i: int, m: int, q: bool, cur: Seq<char>)
    requires
        0 <= i <= m <= s.len(),
    ensures
        spec_tokenize_from(s.take(m), i, q, cur).is_prefix_of(spec_tokenize_from(s, i, q, cur)),
    decreases m - i,
{
    let t = s.take(m);
    if i == m {
        assert(spec_tokenize_from(t, i, q, cur) =~= Seq::<Seq<char>>::empty());
        assert(Seq::<Seq<char>>::empty().is_prefix_of(spec_tokenize_from(s, i, q, cur)));
    } else {
        assert(t[i] == s[i]);
        let c = s[i];
        if c == '"' {
            if q {
                lemma_tok_take(s, i + 1, m, false, Seq::empty());
                lemma_prefix_prepend(
                    seq![cur],
                    spec_tokenize_from(t, i + 1, false, Seq::empty()),
                    spec_tokenize_from(s, i + 1, false, Seq::empty()),
                );
            } else {
                lemma_tok_take(s, i + 1, m, true, Seq::empty());
            }
        } else if q {
            lemma_tok_take(s, i + 1, m, true, cur.push(c));
        } else if c == '{' || c == '}' {
            lemma_tok_take(s, i + 1, m, false, cur);
            lemma_prefix_prepend(
                seq![seq![c]],
                spec_tokenize_from(t, i + 1, false, cur),
                spec_tokenize_from(s, i + 1, false, cur),
            );
        } else {
            lemma_tok_take(s, i + 1, m, false, cur);
        }
    }
}

/// Tokenizer robustness: for any input and any cut, the tokens of the
/// truncated input are a prefix of the tokens of the whole input.
pub proof fn lemma_tokenize_truncated(s: Seq<char>, m: int)
    requires
        0 <= m <= s.len(),
    ensures
        spec_tokenize(s.take(m)).is_prefix_of(spec_tokenize(s)),
{
    lemma_tok_take(s, 0, m, false, Seq::empty());
}

/// One tree is a truncation of another: equal as strings, or an object
/// whose entries are those of the other up to the last, which may itself
/// be bound to a truncation of the corresponding child.
pub open spec fn tree_prefix(a: KvTree, b: KvTree) -> bool
    decreases a,
{
    match (a, b) {
        (KvTree::Str(s1), KvTree::Str(s2)) => s1 == s2,
        (KvTree::Obj(e1), KvTree::Obj(e2)) => entries_prefix(e1, e2),
        _ => false,
    }
}

/// An entry list is a truncation of another: no longer, equal pair for
/// pair except possibly the last, whose key agrees and whose child is a
/// truncation of the other's child at that position.
pub open spec fn entries_prefix(
    a: Seq<(Seq<char>, KvTree)>,
    b: Seq<(Seq<char>, KvTree)>,
) -> bool
    decreases a,
{
    &&& a.len() <= b.len()
    &&& (forall|i: int| 0 <= i < a.len() - 1 ==> #[trigger] a[i] == b[i])
    &&& (a.len() > 0 ==> a.last().0 == b[a.len() - 1].0 && tree_prefix(
        a.last().1,
        b[a.len() - 1].1,
    ))
}

pub proof fn lemma_tree_prefix_refl(t: KvTree)
    ensures
        tree_prefix(t, t),
    decreases t,
{
    match t {
        KvTree::Str(_) => {},
        KvTree::Obj(es) => {
            lemma_entries_prefix_refl(es);
        },
    }
}

pub proof fn lemma_entries_prefix_refl(es: Seq<(Seq<char>, KvTree)>)
    ensures
        entries_prefix(es, es),
    decreases es,
{
    if es.len() > 0 {
        lemma_tree_prefix_refl(es.last().1);
    }
}

/// Extending a truncated tail with the full first pair keeps it a
/// truncation of the whole list.
pub proof fn lemma_entries_prefix_cons(
    es: Seq<(Seq<char>, KvTree)>,
    tail: Seq<(Seq<char>, KvTree)>,
)
    requires
        es.len() > 0,
        entries_prefix(tail, es.drop_first()),
    ensures
        entries_prefix(seq![es[0]] + tail, es),
{
    let p = seq![es[0]] + tail;
    let rest = es.drop_first();
    assert(forall|t: int| 0 <= t < rest.len() ==> #[trigger] rest[t] == es[t + 1]);
    if tail.len() == 0 {
        assert(p.last() == es[0]);
        lemma_tree_prefix_refl(es[0].1);
    } else {
        assert(p.last() == tail.last());
        assert(es[p.len() - 1] == rest[tail.len() - 1]);
    }
    assert forall|idx: int| 0 <= idx < p.len() - 1 implies #[trigger] p[idx] == es[idx] by {
        if idx >= 1 {
            assert(p[idx] == tail[idx - 1]);
            assert(tail[idx - 1] == rest[idx - 1]);
        }
    }
}

/// The parser on a truncated token stream: given the tokens left after a
/// cut anywhere inside a well-formed entry list's serialization, parsing
/// consumes them all and binds `acc` extended by a truncation of the
/// list — complete pairs up to the cut, and at most one pair bound to a
/// truncation of its child; nothing is invented for what the cut removed.
pub proof fn lemma_parse_prefix_at(
    toks: Seq<Seq<char>>,
    i: int,
    es: Seq<(Seq<char>, KvTree)>,
    acc: Seq<(Seq<char>, KvTree)>,
)
    requires
        0 <= i <= toks.len(),
        toks.len() - i <= tok_entries(es).len(),
        toks.subrange(i, toks.len() as int) == tok_entries(es).take(toks.len() - i),
        wf_entries(es),
        forall|j: int, l: int| 0 <= j < acc.len() && 0 <= l < es.len() ==> acc[j].0 != es[l].0,
    ensures
        exists|p: Seq<(Seq<char>, KvTree)>|
            {
                &&& #[trigger] entries_prefix(p, es)
                &&& spec_parse_at(toks, i, acc) == (acc + p, toks.len() as int)
            },
    decreases tok_entries(es).len(),
{
    let rem = toks.len() - i;
    let empty_p = Seq::<(Seq<char>, KvTree)>::empty();
    if rem == 0 {
        assert(acc + empty_p =~= acc);
        assert(entries_prefix(empty_p, es));
        assert(spec_parse_at(toks, i, acc) == (acc + empty_p, toks.len() as int));
    } else {
        assert(es.len() > 0) by {
            if es.len() == 0 {
                assert(tok_entries(es).len() == 0);
            }
        }
        let k = es[0].0;
        let v = es[0].1;
        let rest = es.drop_first();
        assert(clean_str(es[0].0) && wf_tree(es[0].1) && wf_entries(es.drop_first()));
        assert(wf_tree(v));
        let tv = tok_value(v);
        let te_rest = tok_entries(rest);
        let full = tok_entries(es);
        assert(full == seq![k] + tv + te_rest);
        assert(tv.len() >= 1);
        assert(toks[i] == toks.subrange(i, toks.len() as int)[0]);
        assert(toks[i] == k);
        lemma_find_key(acc, k);
        if find_key(acc, k) >= 0 {
            assert(acc[find_key(acc, k)].0 == es[0].0);
            assert(false);
        }
        if rem == 1 {
            // only the key made it past the cut: it is dropped
            assert(spec_parse_at(toks, i, acc) == (acc, i + 1));
            assert(acc + empty_p =~= acc);
            assert(entries_prefix(empty_p, es));
        } else {
            assert(toks[i + 1] == toks.subrange(i, toks.len() as int)[1]);
            assert(toks[i + 1] == tv[0]);
            match v {
                KvTree::Str(s) => {
                    assert(tv == seq![s]);
                    assert(toks[i + 1] == s);
                    assert(clean_str(s));
                    let acc2 = insert_entry(acc, k, KvTree::Str(s));
                    assert(acc2 == acc.push((k, v)));
                    assert(spec_parse_at(toks, i, acc) == spec_parse_at(toks, i + 2, acc2));
                    assert(toks.subrange(i + 2, toks.len() as int) =~= te_rest.take(rem - 2)) by {
                        assert(forall|t: int|
                            0 <= t < rem - 2 ==> toks.subrange(i, toks.len() as int)[2 + t]
                                == #[trigger] te_rest[t]);
                    }
                    assert forall|j: int, l: int|
                        0 <= j < acc2.len() && 0 <= l < rest.len() implies acc2[j].0
                        != rest[l].0 by {
                        assert(rest[l] == es[l + 1]);
                        if j < acc.len() {
                            assert(acc2[j] == acc[j]);
                        } else {
                            assert(acc2[j].0 == k);
                        }
                    }
                    lemma_parse_prefix_at(toks, i + 2, rest, acc2);
                    let tailp = choose|tp: Seq<(Seq<char>, KvTree)>|
                        entries_prefix(tp, rest) && spec_parse_at(toks, i + 2, acc2) == (
                        acc2 + tp,
                        toks.len() as int,
                        );
                    lemma_entries_prefix_cons(es, tailp);
                    let p = seq![es[0]] + tailp;
                    assert(acc2 + tailp =~= acc + p);
                    assert(spec_parse_at(toks, i, acc) == (acc + p, toks.len() as int));
                },
                KvTree::Obj(ces) => {
                    let te_c = tok_entries(ces);
                    assert(tv == seq![seq!['{']] + te_c + seq![seq!['}']]);
                    assert(toks[i + 1] == seq!['{']);
                    assert(wf_entries(ces));
                    assert(te_c.len() < full.len());
                    if rem - 2 <= te_c.len() {
                        // the cut falls inside the child object (or right
                        // before its closing brace)
                        assert(toks.subrange(i + 2, toks.len() as int) =~= te_c.take(rem - 2)) by {
                            assert(forall|t: int|
                                0 <= t < rem - 2 ==> toks.subrange(i, toks.len() as int)[2 + t]
                                    == #[trigger] te_c[t]);
                            assert(forall|t: int|
                                0 <= t < rem - 2 ==> #[trigger] tv[1 + t] == te_c[t]);
                        }
                        lemma_parse_prefix_at(toks, i + 2, ces, Seq::empty());
                        let pc = choose|tp: Seq<(Seq<char>, KvTree)>|
                            entries_prefix(tp, ces) && spec_parse_at(toks, i + 2, Seq::empty())
                                == (Seq::<(Seq<char>, KvTree)>::empty() + tp, toks.len() as int);
                        assert(Seq::<(Seq<char>, KvTree)>::empty() + pc =~= pc);
                        assert(spec_parse_at(toks, i + 2, Seq::empty()) == (
                            pc,
                            toks.len() as int,
                        ));
                        let acc2 = insert_entry(acc, k, KvTree::Obj(pc));
                        assert(acc2 == acc.push((k, KvTree::Obj(pc))));
                        assert(spec_parse_at(toks, i, acc) == spec_parse_at(
                            toks,
                            toks.len() as int,
                            acc2,
                        ));
                        assert(spec_parse_at(toks, toks.len() as int, acc2) == (
                            acc2,
                            toks.len() as int,
                        ));
                        let p = seq![(k, KvTree::Obj(pc))];
                        assert(acc2 =~= acc + p);
                        assert(entries_prefix(p, es)) by {
                            assert(p.last() == (k, KvTree::Obj(pc)));
                            assert(tree_prefix(KvTree::Obj(pc), es[0].1));
                        }
                    } else {
                        // the whole child made it past the cut
                        let j0 = i + 2 + te_c.len();
                        assert(toks.subrange(i + 2, j0 as int) =~= te_c) by {
                            assert(forall|t: int|
                                0 <= t < te_c.len() ==> toks.subrange(i, toks.len() as int)[2 + t]
                                    == #[trigger] te_c[t]);
                            assert(forall|t: int|
                                0 <= t < te_c.len() ==> #[trigger] tv[1 + t] == te_c[t]);
                        }
                        lemma_parse_round_trip_at(toks, i + 2, ces, Seq::empty());
                        assert(Seq::<(Seq<char>, KvTree)>::empty() + ces =~= ces);
                        assert(spec_parse_at(toks, i + 2, Seq::empty()) == spec_parse_at(
                            toks,
                            j0,
                            ces,
                        ));
                        assert(toks[j0] == toks.subrange(i, toks.len() as int)[2 + te_c.len() as int]);
                        assert(toks[j0] == tv[1 + te_c.len() as int]);
                        assert(toks[j0] == seq!['}']);
                        assert(spec_parse_at(toks, j0, ces) == (ces, j0 + 1));
                        let acc2 = insert_entry(acc, k, KvTree::Obj(ces));
                        assert(acc2 == acc.push((k, v)));
                        assert(spec_parse_at(toks, i, acc) == spec_parse_at(toks, j0 + 1, acc2));
                        assert(toks.subrange(j0 + 1, toks.len() as int) =~= te_rest.take(
                            toks.len() - (j0 + 1),
                        )) by {
                            assert(forall|t: int|
                                0 <= t < toks.len() - (j0 + 1) ==> toks.subrange(
                                    i,
                                    toks.len() as int,
                                )[1 + tv.len() + t] == #[trigger] te_rest[t]);
                        }
                        assert forall|j: int, l: int|
                            0 <= j < acc2.len() && 0 <= l < rest.len() implies acc2[j].0
                            != rest[l].0 by {
                            assert(rest[l] == es[l + 1]);
                            if j < acc.len() {
                                assert(acc2[j] == acc[j]);
                            } else {
                                assert(acc2[j].0 == k);
                            }
                        }
                        lemma_parse_prefix_at(toks, j0 + 1, rest, acc2);
                        let tailp = choose|tp: Seq<(Seq<char>, KvTree)>|
                            entries_prefix(tp, rest) && spec_parse_at(toks, j0 + 1, acc2) == (
                            acc2 + tp,
                            toks.len() as int,
                            );
                        lemma_entries_prefix_cons(es, tailp);
                        let p = seq![es[0]] + tailp;
                        assert(acc2 + tailp =~= acc + p);
                        assert(spec_parse_at(toks, i, acc) == (acc + p, toks.len() as int));
                    }
                },
            }
        }
    }
}

/// Parser robustness in full: cut the text of a well-formed document at
/// any character — between tokens, or in the middle of one — and the
/// truncated text still parses, to a truncation of the whole document's
/// tree: complete pairs stay as they are, at most one trailing pair is
/// bound to a truncation of its child, and nothing is invented.
pub proof fn lemma_truncated_text(s: Seq<char>, es: Seq<(Seq<char>, KvTree)>, n: int)
    requires
        wf_entries(es),
        spec_tokenize(s) == tok_entries(es),
        0 <= n <= s.len(),
    ensures
        exists|p: Seq<(Seq<char>, KvTree)>|
            {
                &&& #[trigger] entries_prefix(p, es)
                &&& spec_parse_at(spec_tokenize(s.take(n)), 0, Seq::empty()).0 == p
            },
{
    lemma_tokenize_truncated(s, n);
    let toks = spec_tokenize(s.take(n));
    assert(toks =~= tok_entries(es).take(toks.len() as int));
    assert(toks.subrange(0, toks.len() as int) =~= tok_entries(es).take(toks.len() - 0));
    lemma_parse_prefix_at(toks, 0, es, Seq::empty());
    let p = choose|tp: Seq<(Seq<char>, KvTree)>|
        entries_prefix(tp, es) && spec_parse_at(toks, 0, Seq::empty()) == (
        Seq::<(Seq<char>, KvTree)>::empty() + tp,
        toks.len() as int,
        );
    assert(Seq::<(Seq<char>, KvTree)>::empty() + p =~= p);
    assert(spec_parse_at(toks, 0, Seq::empty()).0 == p);
}

} // verus!
