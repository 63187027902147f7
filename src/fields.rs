use crate::text::{compare_text, lemma_bytes_less_transitive, lemma_text_less_differs, text_less};
use crate::value::{Value, ValueView};
use vstd::prelude::*;

verus! {

/// One named entry of a field map.
#[derive(Debug, PartialEq, Eq, Hash)]
struct Field {
    name: String,
    value: Value,
}

/// A mapping from names to values. The entries are kept in the order of
/// their names, one per name, so that two maps are equal, and hash alike,
/// exactly when they map the same names to the same values.
#[derive(Debug, PartialEq, Eq, Hash)]
pub struct Fields {
    fields: Vec<Field>,
}

impl Clone for Fields {
    fn clone(&self) -> (r: Fields)
        ensures
            r@ == self@,
    {
        proof {
            use_type_invariant(self);
        }
        let mut fields: Vec<Field> = Vec::new();
        let mut i: usize = 0;
        while i < self.fields.len()
            invariant
                0 <= i <= self.fields@.len(),
                fields@.len() == i,
                forall|j: int| 0 <= j < i ==> #[trigger] fields@[j].name == self.fields@[j].name
                    && fields@[j].value@ == self.fields@[j].value@,
            decreases self.fields@.len() - i,
        {
            let f = &self.fields[i];
            fields.push(Field { name: f.name.clone(), value: f.value.clone() });
            i = i + 1;
        }
        proof {
            assert(sorted_fields(fields@));
            assert(fields_view(fields@).dom() =~= fields_view(self.fields@).dom()) by {
                assert forall|k: Seq<char>| fields_view(self.fields@).dom().contains(k) implies
                    fields_view(fields@).dom().contains(k) by {
                    let j = choose|j: int| 0 <= j < self.fields@.len() && self.fields@[j].name@ == k;
                    assert(fields@[j].name@ == k);
                }
            }
            assert forall|k: Seq<char>| fields_view(fields@).dom().contains(k) implies fields_view(
                fields@,
            )[k] == fields_view(self.fields@)[k] by {
                let j = choose|j: int| 0 <= j < fields@.len() && fields@[j].name@ == k;
                lemma_fields_lookup(fields@, j);
                lemma_fields_lookup(self.fields@, j);
            }
            assert(fields_view(fields@) =~= fields_view(self.fields@));
        }
        Fields { fields }
    }
}

/// Field names in strictly increasing order; so each name occurs once.
spec fn sorted_fields(fs: Seq<Field>) -> bool {
    forall|i: int, j: int|
        0 <= i < j < fs.len() ==> text_less(#[trigger] fs[i].name@, #[trigger] fs[j].name@)
}

/// The mapping that a sequence of fields stands for.
spec fn fields_view(fs: Seq<Field>) -> Map<Seq<char>, ValueView> {
    Map::new(
        |k: Seq<char>| exists|i: int| 0 <= i < fs.len() && fs[i].name@ == k,
        |k: Seq<char>| fs[choose|i: int| 0 <= i < fs.len() && fs[i].name@ == k].value@,
    )
}

proof fn lemma_fields_lookup(fs: Seq<Field>, i: int)
    requires
        sorted_fields(fs),
        0 <= i < fs.len(),
    ensures
        fields_view(fs).contains_key(fs[i].name@),
        fields_view(fs)[fs[i].name@] == fs[i].value@,
{
    let k = fs[i].name@;
    assert(fields_view(fs).dom().contains(k));
    let j = choose|j: int| 0 <= j < fs.len() && fs[j].name@ == k;
    if j < i {
        lemma_text_less_differs(fs[j].name@, k);
    } else if i < j {
        lemma_text_less_differs(k, fs[j].name@);
    }
}

/// Putting a field at position `i` of `before`, in place of the one there
/// (`replace`) or in front of it, gives the mapping with that field set.
proof fn lemma_fields_put(before: Seq<Field>, after: Seq<Field>, i: int, replace: bool)
    requires
        sorted_fields(before),
        sorted_fields(after),
        0 <= i <= before.len(),
        replace ==> i < before.len() && before[i].name@ == after[i].name@ && after
            == before.update(i, after[i]),
        !replace ==> i <= before.len() && after == before.insert(i, after[i]),
    ensures
        fields_view(after) == fields_view(before).insert(after[i].name@, after[i].value@),
{
    let key = after[i].name@;
    let lhs = fields_view(after);
    let rhs = fields_view(before).insert(key, after[i].value@);
    assert forall|k: Seq<char>| lhs.contains_key(k) <==> rhs.contains_key(k) by {
        if lhs.contains_key(k) {
            let j = choose|j: int| 0 <= j < after.len() && after[j].name@ == k;
            if j != i {
                let jb = if !replace && j > i { j - 1 } else { j };
                assert(before[jb].name@ == k);
            }
        }
        if rhs.contains_key(k) && k != key {
            let j = choose|j: int| 0 <= j < before.len() && before[j].name@ == k;
            let ja = if !replace && j >= i { j + 1 } else { j };
            assert(after[ja].name@ == k);
        }
    }
    assert forall|k: Seq<char>| lhs.contains_key(k) implies lhs[k] == rhs[k] by {
        let j = choose|j: int| 0 <= j < after.len() && after[j].name@ == k;
        lemma_fields_lookup(after, j);
        if j != i {
            let jb = if !replace && j > i { j - 1 } else { j };
            assert(before[jb] == after[j]);
            lemma_fields_lookup(before, jb);
            if k == key {
                if j < i {
                    lemma_text_less_differs(after[j].name@, key);
                } else {
                    lemma_text_less_differs(key, after[j].name@);
                }
            }
        }
    }
    assert(lhs =~= rhs);
}

impl View for Fields {
    type V = Map<Seq<char>, ValueView>;

    closed spec fn view(&self) -> Map<Seq<char>, ValueView> {
        fields_view(self.fields@)
    }
}

impl Fields {
    #[verifier::type_invariant]
    spec fn sorted(&self) -> bool {
        sorted_fields(self.fields@)
    }

    /// An empty map.
    pub fn new() -> (r: Fields)
        ensures
            r@ == Map::<Seq<char>, ValueView>::empty(),
    {
        let r = Fields { fields: Vec::new() };
        assert(r@ =~= Map::<Seq<char>, ValueView>::empty());
        r
    }

    /// Maps `key` to `value`, replacing what it was mapped to.
    pub fn insert(&mut self, key: String, value: Value)
        ensures
            final(self)@ == old(self)@.insert(key@, value@),
    {
        proof {
            use_type_invariant(&*self);
        }
        let mut fields: Vec<Field> = Vec::new();
        std::mem::swap(&mut self.fields, &mut fields);
        let ghost before = fields@;
        // The first field whose name is not below `key`.
        let mut i: usize = 0;
        let mut c: i8 = -1;
        while i < fields.len() && c < 0
            invariant
                fields@ == before,
                sorted_fields(before),
                0 <= i <= before.len(),
                forall|a: int| 0 <= a < i ==> text_less(#[trigger] before[a].name@, key@),
                c >= 0 ==> i < before.len(),
                c == 0 ==> before[i as int].name@ == key@,
                c > 0 ==> text_less(key@, before[i as int].name@),
            decreases before.len() - i + (if c < 0 { 1int } else { 0int }),
        {
            c = compare_text(fields[i].name.as_str(), key.as_str());
            if c < 0 {
                i = i + 1;
            }
        }
        let replace = i < fields.len() && c == 0;
        if replace {
            fields.set(i, Field { name: key, value });
        } else {
            fields.insert(i, Field { name: key, value });
        }
        proof {
            let after = fields@;
            assert forall|a: int, b: int|
                0 <= a < b < after.len() implies text_less(
                #[trigger] after[a].name@,
                #[trigger] after[b].name@,
            ) by {
                if replace {
                    assert(after[a].name@ == before[a].name@);
                    assert(after[b].name@ == before[b].name@);
                } else if b == i {
                } else if a == i {
                    if b > i + 1 {
                        lemma_bytes_less_transitive(
                            crate::text::bytes_of(key@),
                            crate::text::bytes_of(before[i as int].name@),
                            crate::text::bytes_of(before[b - 1].name@),
                        );
                    }
                } else if a < i && b > i {
                    if b > i + 1 {
                        lemma_bytes_less_transitive(
                            crate::text::bytes_of(key@),
                            crate::text::bytes_of(before[i as int].name@),
                            crate::text::bytes_of(before[b - 1].name@),
                        );
                    }
                    lemma_bytes_less_transitive(
                        crate::text::bytes_of(before[a].name@),
                        crate::text::bytes_of(key@),
                        crate::text::bytes_of(before[b - 1].name@),
                    );
                }
            }
            lemma_fields_put(before, after, i as int, replace);
        }
        self.fields = fields;
    }

    /// The value that `key` is mapped to, if any.
    pub fn get(&self, key: &str) -> (r: Option<&Value>)
        ensures
            r.is_some() == self@.contains_key(key@),
            r.is_some() ==> r.unwrap()@ == self@[key@],
    {
        proof {
            use_type_invariant(self);
        }
        let mut i: usize = 0;
        while i < self.fields.len()
            invariant
                sorted_fields(self.fields@),
                0 <= i <= self.fields@.len(),
                forall|a: int| 0 <= a < i ==> self.fields@[a].name@ != key@,
            decreases self.fields@.len() - i,
        {
            if compare_text(self.fields[i].name.as_str(), key) == 0 {
                proof {
                    lemma_fields_lookup(self.fields@, i as int);
                }
                return Some(&self.fields[i].value);
            }
            i = i + 1;
        }
        None
    }
}

} // verus!
