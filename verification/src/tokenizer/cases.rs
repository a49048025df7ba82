//! Encoding a list of texts, to compare tokenizers.
use vstd::prelude::*;
use crate::json::{json_of_text, json_text, number, print, read_text, Json, Tree};
use crate::text::decimal;
use crate::tokenizer::model::Tokenizer;

verus! {

/// A list of ids.
pub open spec fn ids_tree(ids: Seq<u32>) -> Tree {
    Tree::Arr(Seq::new(ids.len(), |i: int| Tree::Num(decimal(ids[i] as nat))))
}

/// The ids of each text of a list, if the value is a list of texts.
pub open spec fn encoded_list(k: Tokenizer, t: Tree) -> Option<Tree> {
    match t {
        Tree::Arr(a) => if forall|i: int| 0 <= i < a.len() ==> #[trigger] a[i] is Str {
            Some(Tree::Arr(Seq::new(a.len(), |i: int| ids_tree(k.text_ids(a[i]->Str_0)))))
        } else {
            None
        },
        _ => None,
    }
}

fn ids_json(ids: &[u32]) -> (j: Json)
    ensures
        j.tree() == ids_tree(ids@),
{
    let mut v: Vec<Json> = Vec::new();
    let mut i: usize = 0;
    while i < ids.len()
        invariant
            i <= ids@.len(),
            v@.len() == i,
            forall|x: int|
                0 <= x < i ==> (#[trigger] v@[x]).tree() == Tree::Num(decimal(ids@[x] as nat)),
        decreases ids@.len() - i,
    {
        v.push(number(ids[i] as u64));
        i += 1;
    }
    let j = Json::Arr(v);
    assert(j.tree()->Arr_0 =~= ids_tree(ids@)->Arr_0);
    j
}

impl Tokenizer {
    /// Encodes each text of a list; there is nothing to encode in any other value.
    pub fn encode_list(&self, v: &Json) -> (r: Option<Json>)
        ensures
            match r {
                Some(j) => encoded_list(*self, v.tree()) == Some(j.tree()),
                None => encoded_list(*self, v.tree()) is None,
            },
    {
        let ghost t = v.tree();
        match v {
            Json::Arr(a) => {
                let mut out: Vec<Json> = Vec::new();
                let mut i: usize = 0;
                while i < a.len()
                    invariant
                        i <= a@.len(),
                        t == v.tree(),
                        *v == Json::Arr(*a),
                        t is Arr,
                        t->Arr_0.len() == a@.len(),
                        forall|x: int| 0 <= x < a@.len() ==> #[trigger] t->Arr_0[x] == a@[x].tree(),
                        out@.len() == i,
                        forall|x: int|
                            0 <= x < i ==> #[trigger] t->Arr_0[x] is Str && out@[x].tree()
                                == ids_tree(self.text_ids(t->Arr_0[x]->Str_0)),
                    decreases a@.len() - i,
                {
                    assert(t->Arr_0[i as int] == a@[i as int].tree());
                    match &a[i] {
                        Json::Str(s) => {
                            let ids = self.encode(s.as_str(), false);
                            out.push(ids_json(ids.as_slice()));
                        },
                        _ => {
                            assert(!(t->Arr_0[i as int] is Str));
                            return None;
                        },
                    }
                    i += 1;
                }
                let j = Json::Arr(out);
                assert(j.tree()->Arr_0 =~= encoded_list(*self, t).unwrap()->Arr_0);
                Some(j)
            },
            _ => None,
        }
    }
}

/// Encodes a JSON array of texts and prints a JSON array of id arrays; `None` where
/// the text is no array of texts.
pub fn encode_cases(t: &Tokenizer, s: &str) -> (r: Option<String>)
    ensures
        match r {
            Some(out) => json_of_text(s@) matches Ok(v) && encoded_list(*t, v) is Some && out@
                == json_text(encoded_list(*t, v).unwrap()),
            None => json_of_text(s@) matches Ok(v) ==> encoded_list(*t, v) is None,
        },
{
    match read_text(s) {
        Ok(v) => match t.encode_list(&v) {
            Some(j) => Some(print(&j)),
            None => None,
        },
        Err(_) => None,
    }
}

} // verus!
