//! A file taken apart: its front matter, as far as the rules read it, and its
//! body.
use crate::text::{split, split_by, texts};
use vstd::prelude::*;

verus! {

/// Why front matter could not be read.
#[derive(Debug, Clone, Copy, PartialEq, Eq, Structural)]
pub enum ErrKind {
    /// The fence does not open on line 1.
    NotFirst,
    /// The opening fence is never closed.
    Unterminated,
    /// Not parseable YAML, or not a mapping.
    Invalid,
}

/// Front matter that could not be read.
#[derive(Debug, Clone)]
pub struct Error {
    pub kind: ErrKind,
    pub line: usize,
    pub msg: String,
}

/// A front-matter value, as far as the rules tell values apart.
#[derive(Debug, Clone)]
pub enum Value {
    /// A scalar that reads as a string.
    Scalar(String),
    /// A sequence of strings.
    Strings(Vec<String>),
    /// A mapping of keys to values.
    Mapping,
    /// Anything else.
    Other,
}

/// One key of the front matter, the line it stands on and its value.
#[derive(Debug, Clone)]
pub struct Field {
    pub key: String,
    pub line: usize,
    pub value: Value,
}

/// A file's front matter.
#[derive(Debug, Clone)]
pub struct Frontmatter {
    /// Whether the file has a front-matter block.
    pub present: bool,
    /// The line of the closing fence.
    pub end_line: usize,
    /// The keys, in the order they stand in.
    pub fields: Vec<Field>,
}

/// A file taken apart.
#[derive(Debug, Clone)]
pub struct Document {
    pub fm: Frontmatter,
    /// What follows the front matter.
    pub body: String,
    pub err: Option<Error>,
}

/// The first position of `key` among the fields, or their number.
pub open spec fn field_index(fields: Seq<Field>, key: Seq<char>) -> int
    decreases fields.len(),
{
    if fields.len() == 0 || fields[0].key@ == key {
        0
    } else {
        1 + field_index(fields.drop_first(), key)
    }
}

proof fn lemma_field_index(fields: Seq<Field>, key: Seq<char>, n: int)
    requires
        0 <= n <= fields.len(),
        forall|i: int| 0 <= i < n ==> (#[trigger] fields[i]).key@ != key,
        n < fields.len() ==> fields[n].key@ == key,
    ensures
        field_index(fields, key) == n,
    decreases fields.len(),
{
    if n > 0 {
        let rest = fields.drop_first();
        assert forall|i: int| 0 <= i < n - 1 implies (#[trigger] rest[i]).key@ != key by {
            assert(rest[i] == fields[i + 1]);
        }
        assert(fields[0].key@ != key);
        lemma_field_index(rest, key, n - 1);
    }
}

impl Frontmatter {
    /// The field with the key, the first if there are several.
    pub open spec fn field(self, key: Seq<char>) -> Option<Field> {
        let n = field_index(self.fields@, key);
        if 0 <= n < self.fields@.len() {
            Some(self.fields@[n])
        } else {
            None
        }
    }

    /// The line that the key stands on, or 0.
    pub open spec fn line_of(self, key: Seq<char>) -> nat {
        match self.field(key) {
            Some(field) => field.line as nat,
            None => 0,
        }
    }

    /// The key's value, where it is a string.
    pub open spec fn text_of(self, key: Seq<char>) -> Option<Seq<char>> {
        match self.field(key) {
            Some(field) => match field.value {
                Value::Scalar(text) => Some(text@),
                _ => None,
            },
            None => None,
        }
    }

    /// How many lines come before the body.
    pub open spec fn body_offset(self) -> nat {
        if self.present {
            self.end_line as nat
        } else {
            0
        }
    }

    /// Finds the field with the key.
    fn find(&self, key: &str) -> (r: Option<&Field>)
        ensures
            match r {
                Some(field) => self.field(key@) == Some(*field),
                None => self.field(key@) is None,
            },
    {
        let wanted: String = key.to_owned();
        let mut i: usize = 0;
        while i < self.fields.len()
            invariant
                i <= self.fields.len(),
                wanted@ == key@,
                forall|j: int| 0 <= j < i ==> (#[trigger] self.fields@[j]).key@ != key@,
            decreases self.fields.len() - i,
        {
            if self.fields[i].key == wanted {
                proof {
                    lemma_field_index(self.fields@, key@, i as int);
                }
                return Some(&self.fields[i]);
            }
            i += 1;
        }
        proof {
            lemma_field_index(self.fields@, key@, i as int);
        }
        None
    }

    /// Reports whether the front matter has the key.
    pub fn has(&self, key: &str) -> (r: bool)
        ensures
            r == (self.field(key@) is Some),
    {
        match self.find(key) {
            Some(_) => true,
            None => false,
        }
    }

    /// Returns the line that the key stands on, or 0.
    pub fn line(&self, key: &str) -> (r: usize)
        ensures
            r == self.line_of(key@),
    {
        match self.find(key) {
            Some(field) => field.line,
            None => 0,
        }
    }

    /// Returns the key's value.
    pub fn node(&self, key: &str) -> (r: Option<&Value>)
        ensures
            match r {
                Some(value) => self.field(key@) matches Some(field) && field.value == *value,
                None => self.field(key@) is None,
            },
    {
        match self.find(key) {
            Some(field) => Some(&field.value),
            None => None,
        }
    }

    /// Returns the key's value, where it is a string.
    pub fn string(&self, key: &str) -> (r: Option<String>)
        ensures
            match r {
                Some(text) => self.text_of(key@) == Some(text@),
                None => self.text_of(key@) is None,
            },
    {
        match self.node(key) {
            Some(Value::Scalar(text)) => Some(text.clone()),
            _ => None,
        }
    }

    /// Whether the key's value is a list of strings, or a string that may list
    /// them with commas.
    pub open spec fn lists_strings(self, key: Seq<char>) -> bool {
        match self.field(key) {
            Some(field) => field.value is Scalar || field.value is Strings,
            None => false,
        }
    }

    /// Reports whether the key's value is a list of strings, or a string that
    /// may list them with commas.
    pub fn is_string_slice(&self, key: &str) -> (r: bool)
        ensures
            r == self.lists_strings(key@),
    {
        match self.node(key) {
            Some(Value::Scalar(_)) => true,
            Some(Value::Strings(_)) => true,
            _ => false,
        }
    }
}

impl Document {
    /// The lines of the body.
    pub open spec fn lines(self) -> Seq<Seq<char>> {
        split_by(self.body@, '\n')
    }

    /// Whether the file's line numbers are machine numbers.
    pub open spec fn countable(self) -> bool {
        self.fm.body_offset() + self.lines().len() <= usize::MAX
    }

    /// Reports whether the file's line numbers are machine numbers, and so
    /// whether the file can be linted.
    pub fn is_countable(&self) -> (r: bool)
        ensures
            r == self.countable(),
    {
        let lines: Vec<String> = split(self.body.as_str(), '\n');
        assert(texts(lines@).len() == lines.len());
        let offset: usize = if self.fm.present {
            self.fm.end_line
        } else {
            0
        };
        offset <= usize::MAX - lines.len()
    }
}

/// A key means the first field that has it: its line and its value, as a string
/// where it is one.
pub proof fn law_key_means_first_field(fm: Frontmatter, key: Seq<char>, n: int)
    requires
        0 <= n < fm.fields@.len(),
        fm.fields@[n].key@ == key,
        forall|i: int| 0 <= i < n ==> (#[trigger] fm.fields@[i]).key@ != key,
    ensures
        fm.field(key) == Some(fm.fields@[n]),
        fm.line_of(key) == fm.fields@[n].line,
        fm.fields@[n].value matches Value::Scalar(text) ==> fm.text_of(key) == Some(text@),
        !(fm.fields@[n].value is Scalar) ==> fm.text_of(key) is None,
        fm.lists_strings(key) <==> fm.fields@[n].value is Scalar || fm.fields@[n].value is Strings,
{
    lemma_field_index(fm.fields@, key, n);
}

/// A key that no field has means nothing, and stands on no line.
pub proof fn law_absent_key_means_nothing(fm: Frontmatter, key: Seq<char>)
    requires
        forall|i: int| 0 <= i < fm.fields@.len() ==> (#[trigger] fm.fields@[i]).key@ != key,
    ensures
        fm.field(key) is None,
        fm.line_of(key) == 0,
        fm.text_of(key) is None,
        !fm.lists_strings(key),
{
    lemma_field_index(fm.fields@, key, fm.fields@.len() as int);
}

/// The body starts on the line behind the closing fence, and on the first line
/// where there is no front matter.
pub proof fn law_body_follows_front_matter(doc: Document)
    ensures
        doc.fm.present ==> doc.fm.body_offset() == doc.fm.end_line,
        !doc.fm.present ==> doc.fm.body_offset() == 0,
        doc.lines() == split_by(doc.body@, '\n'),
        doc.countable() <==> doc.fm.body_offset() + doc.lines().len() <= usize::MAX,
{
}

} // verus!
