//! The vocabulary of a tokenizer as byte strings, and tool sets to test with.
use vstd::hash_map::StringHashMap;
use vstd::prelude::*;
use vstd::utf8::encode_utf8;
use crate::grammar::lang::{Param, ParamType, Tool};
use crate::json::{json_of_text, read_text, Json, Tree};
use crate::text::{copy_bytes, decimal, decimal_text, lemma_decimal, replace_char, replaced};

verus! {

/// Why a tokenizer file yields no vocabulary.
pub enum VocabError {
    /// not JSON; the message says why
    NotJson(String),
    /// `model.vocab` is not an object
    NoVocab,
    /// an id of `model.vocab` is not an integer, or is negative
    BadId,
    /// an id leaves no room for the ids below it
    IdTooLarge,
}

/// The entries of `model.vocab`.
pub open spec fn vocab_entries(t: Tree) -> Option<Seq<(Seq<char>, Tree)>> {
    match t.at("model"@).at("vocab"@) {
        Tree::Obj(fields) => Some(fields),
        _ => None,
    }
}

/// The entries of `added_tokens`.
pub open spec fn added_entries(t: Tree) -> Seq<Tree> {
    match t.field("added_tokens"@) {
        Some(Tree::Arr(a)) => a,
        _ => Seq::empty(),
    }
}

/// The id of an added token, if it has one.
pub open spec fn added_id(t: Tree) -> Option<u64> {
    match t.field("id"@) {
        Some(v) => v.uint(),
        None => None,
    }
}

/// Whether every entry has an id.
pub open spec fn all_ids(entries: Seq<(Seq<char>, Tree)>) -> bool {
    forall|i: int| 0 <= i < entries.len() ==> (#[trigger] entries[i]).1.uint() is Some
}

/// The larger of two numbers.
pub open spec fn larger(a: nat, b: nat) -> nat {
    if a < b {
        b
    } else {
        a
    }
}

/// The largest id among the entries, or zero.
pub open spec fn max_vocab_id(entries: Seq<(Seq<char>, Tree)>) -> nat
    decreases entries.len(),
{
    if entries.len() == 0 {
        0
    } else {
        larger(
            max_vocab_id(entries.drop_last()),
            match entries.last().1.uint() {
                Some(n) => n as nat,
                None => 0,
            },
        )
    }
}

/// The largest id among the added tokens, or zero.
pub open spec fn max_added_id(added: Seq<Tree>) -> nat
    decreases added.len(),
{
    if added.len() == 0 {
        0
    } else {
        larger(
            max_added_id(added.drop_last()),
            match added_id(added.last()) {
                Some(n) => n as nat,
                None => 0,
            },
        )
    }
}

/// The largest id of the vocabulary.
pub open spec fn max_id(entries: Seq<(Seq<char>, Tree)>, added: Seq<Tree>) -> nat {
    larger(max_vocab_id(entries), max_added_id(added))
}

/// Whether an id belongs to an added token.
pub open spec fn is_added(added: Seq<Tree>, id: nat) -> bool {
    exists|i: int| 0 <= i < added.len() && (added_id(#[trigger] added[i]) matches Some(n) && n == id)
}

/// What a token spells: its characters, with a space for U+2581.
pub open spec fn piece_bytes(token: Seq<char>) -> Seq<u8> {
    encode_utf8(replaced(token, '\u{2581}', ' '))
}

/// What the last entry with an id spells; nothing where there is none.
pub open spec fn vocab_piece(entries: Seq<(Seq<char>, Tree)>, id: nat) -> Seq<u8>
    decreases entries.len(),
{
    if entries.len() == 0 {
        Seq::empty()
    } else if entries.last().1.uint() matches Some(n) && n == id {
        piece_bytes(entries.last().0)
    } else {
        vocab_piece(entries.drop_last(), id)
    }
}

/// The byte string of a token id. An added token has none, so that no byte of
/// text can ever be read as one.
pub open spec fn token_bytes(
    entries: Seq<(Seq<char>, Tree)>,
    added: Seq<Tree>,
    id: nat,
) -> Seq<u8> {
    if is_added(added, id) {
        Seq::empty()
    } else {
        vocab_piece(entries, id)
    }
}

/// What a vocabulary is made into.
pub open spec fn vocab_result(t: Tree, r: Result<Vec<Vec<u8>>, VocabError>) -> bool {
    match vocab_entries(t) {
        None => r matches Err(VocabError::NoVocab),
        Some(entries) => {
            let added = added_entries(t);
            if !all_ids(entries) {
                r matches Err(VocabError::BadId)
            } else if max_id(entries, added) >= usize::MAX {
                r matches Err(VocabError::IdTooLarge)
            } else {
                &&& r matches Ok(out)
                &&& out@.len() == max_id(entries, added) + 1
                &&& forall|id: int|
                    0 <= id < out@.len() ==> (#[trigger] out@[id])@ == token_bytes(
                        entries,
                        added,
                        id as nat,
                    )
            }
        },
    }
}

proof fn lemma_max_vocab(entries: Seq<(Seq<char>, Tree)>, i: int)
    requires
        0 <= i < entries.len(),
    ensures
        entries[i].1.uint() matches Some(n) ==> n <= max_vocab_id(entries),
    decreases entries.len(),
{
    if i < entries.len() - 1 {
        lemma_max_vocab(entries.drop_last(), i);
    }
}

/// The byte string of each token id of a tokenizer.
///
/// The byte strings of added tokens are empty, which keeps them out of every
/// constraint: `<pad>` and its like have byte forms that a string body would take.
pub fn vocab_bytes(v: &Json) -> (r: Result<Vec<Vec<u8>>, VocabError>)
    ensures
        vocab_result(v.tree(), r),
{
    let entries = match v.get("model") {
        Some(m) => match m.get("vocab") {
            Some(Json::Obj(fields)) => fields,
            _ => {
                return Err(VocabError::NoVocab);
            },
        },
        None => {
            return Err(VocabError::NoVocab);
        },
    };
    let ghost es = vocab_entries(v.tree()).unwrap();
    let ghost ads = added_entries(v.tree());
    proof {
        assert(forall|k: int|
            0 <= k < entries@.len() ==> #[trigger] es[k] == (entries@[k].0@, entries@[k].1.tree()));
    }
    let mut top: u64 = 0;
    let mut i: usize = 0;
    while i < entries.len()
        invariant
            i <= entries@.len(),
            es.len() == entries@.len(),
            forall|k: int|
                0 <= k < entries@.len() ==> #[trigger] es[k] == (
                    entries@[k].0@,
                    entries@[k].1.tree(),
                ),
            vocab_entries(v.tree()) == Some(es),
            forall|k: int| 0 <= k < i ==> (#[trigger] es[k]).1.uint() is Some,
            top == max_vocab_id(es.take(i as int)),
        decreases entries@.len() - i,
    {
        proof {
            assert(es.take(i + 1).drop_last() =~= es.take(i as int));
            assert(es[i as int] == (entries@[i as int].0@, entries@[i as int].1.tree()));
        }
        match entries[i].1.as_u64() {
            Some(id) => {
                if top < id {
                    top = id;
                }
            },
            None => {
                return Err(VocabError::BadId);
            },
        }
        i += 1;
    }
    assert(es.take(i as int) =~= es);
    let none: Vec<Json> = Vec::new();
    let added: &Vec<Json> = match v.get("added_tokens") {
        Some(Json::Arr(a)) => a,
        _ => &none,
    };
    proof {
        assert(ads.len() == added@.len());
        assert(forall|k: int| 0 <= k < added@.len() ==> #[trigger] ads[k] == added@[k].tree());
    }
    let ghost vocab_top = top;
    let mut special: Vec<u64> = Vec::new();
    let mut i: usize = 0;
    while i < added.len()
        invariant
            i <= added@.len(),
            ads.len() == added@.len(),
            forall|k: int| 0 <= k < added@.len() ==> #[trigger] ads[k] == added@[k].tree(),
            top == larger(vocab_top as nat, max_added_id(ads.take(i as int))),
            forall|id: nat|
                is_added(ads.take(i as int), id) <==> exists|k: int|
                    0 <= k < special@.len() && #[trigger] special@[k] == id,
        decreases added@.len() - i,
    {
        let ghost before = ads.take(i as int);
        let ghost after = ads.take(i + 1);
        let ghost s0 = special@;
        proof {
            assert(after.drop_last() =~= before);
            assert(after.last() == added@[i as int].tree());
        }
        let id: Option<u64> = match added[i].get("id") {
            Some(x) => x.as_u64(),
            None => None,
        };
        if let Some(id) = id {
            if top < id {
                top = id;
            }
            special.push(id);
        }
        proof {
            assert forall|n: nat|
                is_added(after, n) <==> exists|k: int|
                    0 <= k < special@.len() && #[trigger] special@[k] == n by {
                if is_added(after, n) {
                    let k = choose|k: int|
                        0 <= k < after.len() && (added_id(#[trigger] after[k]) matches Some(m) && m
                            == n);
                    if k < i {
                        assert(before[k] == after[k]);
                        assert(is_added(before, n));
                        let j = choose|j: int| 0 <= j < s0.len() && #[trigger] s0[j] == n;
                        assert(special@[j] == n);
                    } else {
                        assert(special@[s0.len() as int] == n);
                    }
                }
                if exists|k: int| 0 <= k < special@.len() && #[trigger] special@[k] == n {
                    let k = choose|k: int| 0 <= k < special@.len() && #[trigger] special@[k] == n;
                    if k < s0.len() {
                        assert(s0[k] == n);
                        assert(is_added(before, n));
                        let j = choose|j: int|
                            0 <= j < before.len() && (added_id(#[trigger] before[j]) matches Some(m)
                                && m == n);
                        assert(after[j] == before[j]);
                    } else {
                        assert(added_id(after[i as int]) == Some(n as u64));
                    }
                }
            }
        }
        i += 1;
    }
    assert(ads.take(i as int) =~= ads);
    if top >= usize::MAX as u64 {
        return Err(VocabError::IdTooLarge);
    }
    let n: usize = top as usize + 1;
    let mut out: Vec<Vec<u8>> = Vec::new();
    while out.len() < n
        invariant
            out@.len() <= n,
            forall|k: int| 0 <= k < out@.len() ==> (#[trigger] out@[k])@.len() == 0,
        decreases n - out@.len(),
    {
        out.push(Vec::new());
    }
    let mut i: usize = 0;
    proof {
        assert forall|k: int| 0 <= k < out@.len() implies (#[trigger] out@[k])@ == token_bytes(
            es.take(0),
            ads,
            k as nat,
        ) by {
            assert(es.take(0).len() == 0);
            assert(out@[k]@ =~= Seq::empty());
        }
    }
    while i < entries.len()
        invariant
            i <= entries@.len(),
            es.len() == entries@.len(),
            forall|k: int|
                0 <= k < entries@.len() ==> #[trigger] es[k] == (
                    entries@[k].0@,
                    entries@[k].1.tree(),
                ),
            all_ids(es),
            max_vocab_id(es) < n,
            out@.len() == n,
            forall|id: nat|
                is_added(ads, id) <==> exists|k: int|
                    0 <= k < special@.len() && #[trigger] special@[k] == id,
            forall|k: int|
                0 <= k < out@.len() ==> (#[trigger] out@[k])@ == token_bytes(
                    es.take(i as int),
                    ads,
                    k as nat,
                ),
        decreases entries@.len() - i,
    {
        let ghost before = es.take(i as int);
        let ghost after = es.take(i + 1);
        let ghost out0 = out@;
        proof {
            assert(after.drop_last() =~= before);
            assert(after.last() == es[i as int]);
            lemma_max_vocab(es, i as int);
        }
        if let Some(id) = entries[i].1.as_u64() {
            let mut seen: bool = false;
            let mut j: usize = 0;
            while j < special.len()
                invariant
                    j <= special@.len(),
                    seen == exists|k: int| 0 <= k < j && #[trigger] special@[k] == id,
                decreases special@.len() - j,
            {
                if special[j] == id {
                    seen = true;
                }
                j += 1;
            }
            if !seen {
                let text = replace_char(entries[i].0.as_str(), '\u{2581}', ' ');
                let b = text.as_str().as_bytes();
                let piece = copy_bytes(b, 0, b.len());
                assert(piece@ =~= b@);
                out.set(id as usize, piece);
            }
        }
        proof {
            let id = es[i as int].1.uint().unwrap();
            assert forall|k: int| 0 <= k < out@.len() implies (#[trigger] out@[k])@ == token_bytes(
                after,
                ads,
                k as nat,
            ) by {
                assert(out0[k]@ == token_bytes(before, ads, k as nat));
                if k == id {
                    if is_added(ads, id as nat) {
                        let j = choose|j: int| 0 <= j < special@.len() && #[trigger] special@[j] == id;
                    }
                }
            }
        }
        i += 1;
    }
    assert(es.take(i as int) =~= es);
    Ok(out)
}

/// Reads a tokenizer file and gives the byte string of each token id.
pub fn load_vocab_bytes(tokenizer_json: &str) -> (r: Result<Vec<Vec<u8>>, VocabError>)
    ensures
        match json_of_text(tokenizer_json@) {
            Ok(t) => vocab_result(t, r),
            Err(e) => r matches Err(VocabError::NotJson(m)) && m@ == e,
        },
{
    match read_text(tokenizer_json) {
        Ok(v) => vocab_bytes(&v),
        Err(e) => Err(VocabError::NotJson(e)),
    }
}

// ---------------------------------------------------------------- tool sets
/// The value type of a synthetic parameter.
pub open spec fn synthetic_type(j: int) -> ParamType {
    if j % 4 == 0 {
        ParamType::Str
    } else if j % 4 == 1 {
        ParamType::Int
    } else if j % 4 == 2 {
        ParamType::Bool
    } else {
        ParamType::Num
    }
}

/// A prefix and a number.
pub open spec fn numbered(prefix: Seq<char>, n: int) -> Seq<char> {
    prefix + decimal(n as nat)
}

/// Whether a parameter is number `j` of a synthetic tool.
pub open spec fn is_synthetic_param(p: Param, j: int) -> bool {
    p.name@ == numbered("p"@, j) && p.ty == synthetic_type(j) && p.required
}

/// Whether a tool is number `i` of a synthetic set with `params` parameters each.
pub open spec fn is_synthetic_tool(t: Tool, i: int, params: nat) -> bool {
    &&& t.name@ == numbered("tool_"@, i)
    &&& t.params@.len() == params
    &&& forall|j: int| 0 <= j < params ==> is_synthetic_param(#[trigger] t.params@[j], j)
}

fn numbered_name(prefix: &str, n: usize) -> (r: String)
    ensures
        r@ == numbered(prefix@, n as int),
{
    let mut r = prefix.to_owned();
    let d = decimal_text(n as u64);
    r.append(d.as_str());
    r
}

/// A tool set of `n` tools with `params` parameters each, all of them required,
/// their types taken in turn.
pub fn synthetic_tools(n: usize, params: usize) -> (r: Vec<Tool>)
    ensures
        r@.len() == n,
        forall|i: int| 0 <= i < n ==> is_synthetic_tool(#[trigger] r@[i], i, params as nat),
{
    let mut r: Vec<Tool> = Vec::new();
    while r.len() < n
        invariant
            r@.len() <= n,
            forall|i: int|
                0 <= i < r@.len() ==> is_synthetic_tool(#[trigger] r@[i], i, params as nat),
        decreases n - r@.len(),
    {
        let mut ps: Vec<Param> = Vec::new();
        while ps.len() < params
            invariant
                ps@.len() <= params,
                forall|j: int| 0 <= j < ps@.len() ==> is_synthetic_param(#[trigger] ps@[j], j),
            decreases params - ps@.len(),
        {
            let j: usize = ps.len();
            let ty = if j % 4 == 0 {
                ParamType::Str
            } else if j % 4 == 1 {
                ParamType::Int
            } else if j % 4 == 2 {
                ParamType::Bool
            } else {
                ParamType::Num
            };
            ps.push(Param { name: numbered_name("p", j), ty, required: true });
        }
        let i: usize = r.len();
        r.push(Tool { name: numbered_name("tool_", i), params: ps });
    }
    r
}

/// Whether tool `i` is the last one with a name.
pub open spec fn last_named(tools: Seq<Tool>, name: Seq<char>, i: int) -> bool {
    &&& 0 <= i < tools.len()
    &&& tools[i].name@ == name
    &&& forall|j: int| i < j < tools.len() ==> (#[trigger] tools[j]).name@ != name
}

/// Map from tool name to its index, for scoring.
pub fn tool_index(tools: &[Tool]) -> (m: StringHashMap<usize>)
    ensures
        forall|name: Seq<char>| #[trigger]
            m@.contains_key(name) <==> exists|i: int|
                0 <= i < tools@.len() && (#[trigger] tools@[i]).name@ == name,
        forall|name: Seq<char>| #[trigger]
            m@.contains_key(name) ==> last_named(tools@, name, m@[name] as int),
{
    let mut m: StringHashMap<usize> = StringHashMap::new();
    let mut i: usize = 0;
    while i < tools.len()
        invariant
            i <= tools@.len(),
            forall|name: Seq<char>| #[trigger]
                m@.contains_key(name) <==> exists|k: int|
                    0 <= k < i && (#[trigger] tools@[k]).name@ == name,
            forall|name: Seq<char>| #[trigger]
                m@.contains_key(name) ==> last_named(
                    tools@.take(i as int),
                    name,
                    m@[name] as int,
                ),
        decreases tools@.len() - i,
    {
        let ghost m0 = m@;
        m.insert(tools[i].name.clone(), i);
        proof {
            let here = tools@[i as int].name@;
            let before = tools@.take(i as int);
            let after = tools@.take(i + 1);
            assert forall|name: Seq<char>| #[trigger] m@.contains_key(name) implies last_named(
                after,
                name,
                m@[name] as int,
            ) by {
                if name != here {
                    assert(m0.contains_key(name));
                    assert(last_named(before, name, m0[name] as int));
                    assert forall|j: int| m@[name] < j < after.len() implies (
                    #[trigger] after[j]).name@ != name by {
                        if j < i {
                            assert(after[j] == before[j]);
                        }
                    }
                }
            }
            assert forall|name: Seq<char>| #[trigger]
                m@.contains_key(name) <==> exists|k: int|
                    0 <= k < i + 1 && (#[trigger] tools@[k]).name@ == name by {
                assert(m@.contains_key(name) == (m0.contains_key(name) || name == here));
                if m0.contains_key(name) {
                    let k = choose|k: int| 0 <= k < i && (#[trigger] tools@[k]).name@ == name;
                    assert(tools@[k].name@ == name);
                }
                if name == here {
                    assert(tools@[i as int].name@ == name);
                }
            }
        }
        i += 1;
    }
    proof {
        assert(tools@.take(i as int) =~= tools@);
    }
    m
}

/// A token spells its string, with spaces for U+2581; an added token spells nothing, and
/// neither does an id that no entry has.
pub proof fn law_tokens_spell_their_strings(
    t: Tree,
    entries: Seq<(Seq<char>, Tree)>,
    out: Vec<Vec<u8>>,
    i: int,
    n: u64,
)
    requires
        vocab_entries(t) == Some(entries),
        vocab_result(t, Ok(out)),
        0 <= n < out@.len(),
    ensures
        ({
            let added = exists|j: int|
                0 <= j < added_entries(t).len() && (#[trigger] added_entries(t)[j]).field("id"@)
                    == Some(Tree::Num(decimal(n as nat)));
            &&& added ==> out@[n as int]@.len() == 0
            &&& 0 <= i < entries.len() && entries[i].1.uint() == Some(n) && !is_added(
                added_entries(t),
                n as nat,
            ) && (forall|j: int|
                i < j < entries.len() ==> (#[trigger] entries[j]).1.uint() != Some(n))
                ==> out@[n as int]@ == encode_utf8(replaced(entries[i].0, '\u{2581}', ' '))
            &&& (forall|j: int| 0 <= j < entries.len() ==> (#[trigger] entries[j]).1.uint() != Some(n))
                ==> out@[n as int]@.len() == 0
        }),
{
    let added = added_entries(t);
    lemma_decimal(n as nat);
    assert(out@[n as int]@ == token_bytes(entries, added, n as nat));
    if exists|j: int|
        0 <= j < added.len() && (#[trigger] added[j]).field("id"@) == Some(
            Tree::Num(decimal(n as nat)),
        ) {
        let j = choose|j: int|
            0 <= j < added.len() && (#[trigger] added[j]).field("id"@) == Some(
                Tree::Num(decimal(n as nat)),
            );
        assert(added_id(added[j]) == Some(n));
        assert(is_added(added, n as nat));
    }
    lemma_vocab_piece(entries, i, n);
}

proof fn lemma_vocab_piece(entries: Seq<(Seq<char>, Tree)>, i: int, n: u64)
    ensures
        0 <= i < entries.len() && entries[i].1.uint() == Some(n) && (forall|j: int|
            i < j < entries.len() ==> (#[trigger] entries[j]).1.uint() != Some(n)) ==> vocab_piece(
            entries,
            n as nat,
        ) == encode_utf8(replaced(entries[i].0, '\u{2581}', ' ')),
        (forall|j: int| 0 <= j < entries.len() ==> (#[trigger] entries[j]).1.uint() != Some(n))
            ==> vocab_piece(entries, n as nat).len() == 0,
    decreases entries.len(),
{
    if entries.len() > 0 {
        let init = entries.drop_last();
        lemma_vocab_piece(init, i, n);
        assert(entries[entries.len() - 1] == entries.last());
        if 0 <= i && forall|j: int|
            i < j < entries.len() ==> (#[trigger] entries[j]).1.uint() != Some(n) {
            assert forall|j: int| i < j < init.len() implies (#[trigger] init[j]).1.uint() != Some(
                n,
            ) by {
                assert(init[j] == entries[j]);
            }
        }
        if forall|j: int| 0 <= j < entries.len() ==> (#[trigger] entries[j]).1.uint() != Some(n) {
            assert forall|j: int| 0 <= j < init.len() implies (#[trigger] init[j]).1.uint() != Some(
                n,
            ) by {
                assert(init[j] == entries[j]);
            }
        }
        if 0 <= i < init.len() {
            assert(init[i] == entries[i]);
        }
    }
}

/// A vocabulary has room for every id that its file names, and for no more.
pub proof fn law_every_id_has_a_place(
    t: Tree,
    entries: Seq<(Seq<char>, Tree)>,
    out: Vec<Vec<u8>>,
    i: int,
    n: u64,
)
    requires
        vocab_entries(t) == Some(entries),
        vocab_result(t, Ok(out)),
    ensures
        0 <= i < entries.len() && entries[i].1.uint() == Some(n) ==> n < out@.len(),
        0 <= i < added_entries(t).len() && added_id(added_entries(t)[i]) == Some(n) ==> n
            < out@.len(),
{
    if 0 <= i < entries.len() {
        lemma_max_vocab(entries, i);
    }
    lemma_max_added(added_entries(t), i);
}

proof fn lemma_max_added(added: Seq<Tree>, i: int)
    ensures
        0 <= i < added.len() ==> (added_id(added[i]) matches Some(n) ==> n <= max_added_id(added)),
    decreases added.len(),
{
    if added.len() > 0 {
        lemma_max_added(added.drop_last(), i);
    }
}

/// The tools of a synthetic set have names of their own, and so have the parameters of a
/// tool; every parameter is required, and the types come in turn: a text, an integer, a
/// truth value, a number, and again.
pub proof fn law_synthetic_names_differ(a: Tool, i: int, b: Tool, j: int, params: nat)
    requires
        0 <= i,
        0 <= j,
        is_synthetic_tool(a, i, params),
        is_synthetic_tool(b, j, params),
    ensures
        i != j ==> a.name@ != b.name@,
        a.params@.len() == b.params@.len(),
        j < params && i < params && i != j ==> a.params@[i].name@ != a.params@[j].name@,
        i < params ==> a.params@[i].required,
        i + 4 < params ==> a.params@[i].ty == a.params@[i + 4].ty,
        3 < params ==> a.params@[0].ty is Str && a.params@[1].ty is Int && a.params@[2].ty is Bool
            && a.params@[3].ty is Num,
{
    let t = "tool_"@;
    lemma_numbered(t, i, j);
    lemma_numbered("p"@, i, j);
    if i < params {
        assert(is_synthetic_param(a.params@[i], i));
    }
    if j < params {
        assert(is_synthetic_param(a.params@[j], j));
    }
    if i + 4 < params {
        assert(is_synthetic_param(a.params@[i + 4], i + 4));
    }
    if 3 < params {
        assert(is_synthetic_param(a.params@[0], 0));
        assert(is_synthetic_param(a.params@[1], 1));
        assert(is_synthetic_param(a.params@[2], 2));
        assert(is_synthetic_param(a.params@[3], 3));
    }
}

proof fn lemma_numbered(prefix: Seq<char>, i: int, j: int)
    requires
        0 <= i,
        0 <= j,
    ensures
        numbered(prefix, i) == numbered(prefix, j) ==> i == j,
{
    if numbered(prefix, i) == numbered(prefix, j) {
        let n = prefix.len() as int;
        assert(numbered(prefix, i).skip(n) =~= decimal(i as nat));
        assert(numbered(prefix, j).skip(n) =~= decimal(j as nat));
        lemma_decimal(i as nat);
        lemma_decimal(j as nat);
    }
}

} // verus!
