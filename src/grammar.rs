use vstd::prelude::*;

verus! {

/// The value of a field attribute.
#[derive(Debug, Clone, PartialEq, Eq)]
pub enum Attribute {
    Number(i128),
    Word(String),
    Reference(String),
}

#[derive(Debug, Clone, Copy, PartialEq, Eq, Structural)]
pub enum RecordType {
    Sequential,
    Union,
}

#[derive(Debug, Clone, Copy, PartialEq, Eq, Structural)]
pub enum FieldType {
    Normal,
    Array,
    Record,
}

/// A field of a record. For `Array` and `Record` fields the name is also the
/// name of the record that the field holds.
#[derive(Debug)]
pub struct Field {
    pub name: String,
    pub ty: FieldType,
    /// Attributes by key; where a key occurs twice the first entry counts.
    pub attributes: Vec<(String, Attribute)>,
}

#[derive(Debug)]
pub struct Record {
    pub name: String,
    pub ty: RecordType,
    pub fields: Vec<Field>,
}

/// A grammar: records, looked up by name (the first of a name counts).
#[derive(Debug)]
pub struct Grammar(pub Vec<Record>);

/// The first attribute under `key` at index `i` or later.
pub open spec fn attr_from(attrs: Seq<(String, Attribute)>, key: Seq<char>, i: int) -> Option<Attribute>
    decreases attrs.len() - i,
{
    if i < 0 || i >= attrs.len() {
        None
    } else if attrs[i].0@ == key {
        Some(attrs[i].1)
    } else {
        attr_from(attrs, key, i + 1)
    }
}

/// `a` is a reference to the field named `name`.
pub open spec fn is_ref_to(a: Option<Attribute>, name: Seq<char>) -> bool {
    match a {
        Some(Attribute::Reference(n)) => n@ == name,
        _ => false,
    }
}

impl Field {
    /// The attribute of this field under `key`.
    pub open spec fn attr(&self, key: Seq<char>) -> Option<Attribute> {
        attr_from(self.attributes@, key, 0)
    }

    /// This field's `size` or `array_size` is a reference to the field named `name`.
    pub open spec fn refers_to(&self, name: Seq<char>) -> bool {
        is_ref_to(self.attr("size"@), name) || is_ref_to(self.attr("array_size"@), name)
    }

    /// This field's `value` is a reference.
    pub open spec fn has_value_ref(&self) -> bool {
        self.attr("value"@) matches Some(Attribute::Reference(_))
    }

    /// The attribute under `key`, if any.
    pub fn attribute(&self, key: &str) -> (r: Option<&Attribute>)
        ensures
            match r {
                Some(a) => self.attr(key@) == Some(*a),
                None => self.attr(key@) is None,
            },
    {
        let k = key.to_owned();
        let mut i: usize = 0;
        while i < self.attributes.len()
            invariant
                i <= self.attributes@.len(),
                k@ == key@,
                attr_from(self.attributes@, key@, i as int) == self.attr(key@),
            decreases self.attributes@.len() - i,
        {
            if self.attributes[i].0 == k {
                return Some(&self.attributes[i].1);
            }
            i += 1;
        }
        None
    }

    /// Whether this field's `size` or `array_size` is a reference to `name`.
    fn refers_to_name(&self, name: &String) -> (r: bool)
        ensures
            r == self.refers_to(name@),
    {
        let by_size = match self.attribute("size") {
            Some(Attribute::Reference(n)) => *n == *name,
            _ => false,
        };
        let by_array_size = match self.attribute("array_size") {
            Some(Attribute::Reference(n)) => *n == *name,
            _ => false,
        };
        by_size || by_array_size
    }
}

impl Record {
    /// Field `j` is computed from another field: some other field's `size` or
    /// `array_size` refers to it, or its own `value` is a reference.
    pub open spec fn is_dependent(&self, j: int) -> bool {
        self.fields@[j].has_value_ref() || exists|m: int|
            0 <= m < self.fields@.len() && m != j && #[trigger] self.fields@[m].refers_to(
                self.fields@[j].name@,
            )
    }

    /// The indices below `j` of the fields that are not dependent, in order.
    pub open spec fn independent_upto(&self, j: int) -> Seq<int>
        decreases j,
    {
        if j <= 0 {
            Seq::empty()
        } else if self.is_dependent(j - 1) {
            self.independent_upto(j - 1)
        } else {
            self.independent_upto(j - 1).push(j - 1)
        }
    }

    /// The indices of the independent fields, in field order.
    pub open spec fn independent(&self) -> Seq<int> {
        self.independent_upto(self.fields@.len() as int)
    }

    /// Whether field `j` is dependent.
    fn dependent(&self, j: usize) -> (r: bool)
        requires
            j < self.fields@.len(),
        ensures
            r == self.is_dependent(j as int),
    {
        let field = &self.fields[j];
        if let Some(Attribute::Reference(_)) = field.attribute("value") {
            return true;
        }
        let mut m: usize = 0;
        while m < self.fields.len()
            invariant
                j < self.fields@.len(),
                m <= self.fields@.len(),
                *field == self.fields@[j as int],
                !field.has_value_ref(),
                forall|m2: int|
                    0 <= m2 < m && m2 != j ==> !#[trigger] self.fields@[m2].refers_to(
                        self.fields@[j as int].name@,
                    ),
            decreases self.fields@.len() - m,
        {
            if m != j && self.fields[m].refers_to_name(&field.name) {
                return true;
            }
            m += 1;
        }
        false
    }

    /// The fields that the generator produces first, with their indices: those
    /// that no other field's `size` or `array_size` refers to and whose `value`
    /// is not a reference, in field order.
    pub fn independent_fields(&self) -> (r: Vec<(usize, &Field)>)
        ensures
            r@.len() == self.independent().len(),
            forall|t: int|
                0 <= t < r@.len() ==> r@[t].0 as int == self.independent()[t] && *r@[t].1
                    == self.fields@[self.independent()[t]],
    {
        let mut result: Vec<(usize, &Field)> = Vec::new();
        let mut j: usize = 0;
        while j < self.fields.len()
            invariant
                j <= self.fields@.len(),
                result@.len() == self.independent_upto(j as int).len(),
                forall|t: int|
                    0 <= t < result@.len() ==> result@[t].0 as int == self.independent_upto(
                        j as int,
                    )[t] && *result@[t].1 == self.fields@[self.independent_upto(j as int)[t]],
            decreases self.fields@.len() - j,
        {
            if !self.dependent(j) {
                result.push((j, &self.fields[j]));
            }
            j += 1;
        }
        result
    }

    /// The independent fields are fields of this record, listed once each in
    /// field order: their indices are in range and strictly increasing.
    pub proof fn lemma_independent_ordered(&self)
        ensures
            forall|t: int|
                0 <= t < self.independent().len() ==> 0 <= #[trigger] self.independent()[t]
                    < self.fields@.len() && !self.is_dependent(self.independent()[t]),
            forall|t: int, u: int|
                0 <= t < u < self.independent().len() ==> #[trigger] self.independent()[t]
                    < #[trigger] self.independent()[u],
    {
        self.lemma_independent_upto(self.fields@.len() as int);
    }

    proof fn lemma_independent_upto(&self, j: int)
        requires
            j <= self.fields@.len(),
        ensures
            forall|t: int|
                0 <= t < self.independent_upto(j).len() ==> 0 <= #[trigger] self.independent_upto(
                    j,
                )[t] < j && !self.is_dependent(self.independent_upto(j)[t]),
            forall|t: int, u: int|
                0 <= t < u < self.independent_upto(j).len() ==> #[trigger] self.independent_upto(
                    j,
                )[t] < #[trigger] self.independent_upto(j)[u],
        decreases j,
    {
        if j > 0 {
            self.lemma_independent_upto(j - 1);
            let prev = self.independent_upto(j - 1);
            let cur = self.independent_upto(j);
            if !self.is_dependent(j - 1) {
                assert(cur == prev.push(j - 1));
                assert forall|t: int, u: int| 0 <= t < u < cur.len() implies #[trigger] cur[t]
                    < #[trigger] cur[u] by {
                    if u == cur.len() - 1 {
                        assert(0 <= prev[t] < j - 1);
                    } else {
                        assert(prev[t] < prev[u]);
                    }
                }
            }
        }
    }
}

/// The index of the first record named `name` at index `i` or later.
pub open spec fn record_index_from(recs: Seq<Record>, name: Seq<char>, i: int) -> Option<int>
    decreases recs.len() - i,
{
    if i < 0 || i >= recs.len() {
        None
    } else if recs[i].name@ == name {
        Some(i)
    } else {
        record_index_from(recs, name, i + 1)
    }
}

impl Grammar {
    /// The record named `name`.
    pub open spec fn lookup(&self, name: Seq<char>) -> Option<Record> {
        match record_index_from(self.0@, name, 0) {
            Some(i) => Some(self.0@[i]),
            None => None,
        }
    }

    /// The record named `name`, looked up by name among the grammar's records.
    pub fn records(&self, name: &String) -> (r: Option<&Record>)
        ensures
            match r {
                Some(rec) => self.lookup(name@) == Some(*rec),
                None => self.lookup(name@) is None,
            },
    {
        let mut i: usize = 0;
        while i < self.0.len()
            invariant
                i <= self.0@.len(),
                record_index_from(self.0@, name@, i as int) == record_index_from(
                    self.0@,
                    name@,
                    0,
                ),
            decreases self.0@.len() - i,
        {
            if self.0[i].name == *name {
                return Some(&self.0[i]);
            }
            i += 1;
        }
        None
    }
}

} // verus!
