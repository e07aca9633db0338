//! Readable, indented text dumps of the simulator's values.

use crate::bits::{BitField, TruthTable};
use crate::text::{digits, to_digits};
use crate::{LinkStart, LinkTarget};
use vstd::prelude::*;

verus! {

/// The indentation for `level`: four spaces per level.
pub open spec fn indent_text(level: nat) -> Seq<char> {
    Seq::new(4 * level, |i: int| ' ')
}

/// Text being built, with the current indentation level.
pub struct Fmtter {
    pub indent: u8,
    pub result: String,
}

impl Fmtter {
    /// No text, no indentation.
    pub fn new() -> (r: Fmtter)
        ensures
            r.indent == 0,
            r.result@ == Seq::<char>::empty(),
    {
        Fmtter { indent: 0, result: String::new() }
    }

    /// One level deeper.
    pub fn indent(&mut self)
        requires
            old(self).indent < 255,
        ensures
            final(self).indent == old(self).indent + 1,
            final(self).result@ == old(self).result@,
    {
        self.indent = self.indent + 1;
    }

    /// One level shallower.
    pub fn unindent(&mut self)
        requires
            old(self).indent > 0,
        ensures
            final(self).indent == old(self).indent - 1,
            final(self).result@ == old(self).result@,
    {
        self.indent = self.indent - 1;
    }

    /// Appends `s`.
    pub fn push_str(&mut self, s: &str)
        ensures
            final(self).indent == old(self).indent,
            final(self).result@ == old(self).result@ + s@,
    {
        self.result.append(s);
    }

    /// Appends the indentation of the current level.
    pub fn push_indent(&mut self)
        ensures
            final(self).indent == old(self).indent,
            final(self).result@ == old(self).result@ + indent_text(old(self).indent as nat),
    {
        let mut k: u8 = 0;
        while k < self.indent
            invariant
                k <= self.indent,
                self.indent == old(self).indent,
                self.result@ == old(self).result@ + indent_text(k as nat),
            decreases self.indent - k,
        {
            self.result.append("    ");
            proof {
                reveal_strlit("    ");
                assert(indent_text(k as nat) + "    "@ =~= indent_text((k + 1) as nat));
            }
            k = k + 1;
        }
    }

    /// Appends an indented `name: value` line.
    pub fn push_field<T: GoodDebug>(&mut self, name: &str, t: &T)
        requires
            old(self).indent + t.debug_depth() <= 255,
        ensures
            final(self).indent == old(self).indent,
            final(self).result@ == old(self).result@ + indent_text(old(self).indent as nat) + name@ + ": "@
                + t.debug_text(old(self).indent as nat) + "\n"@,
    {
        self.push_last_field(name, t);
        self.result.append("\n");
    }

    /// Appends an indented `name: value`, with no line break after it.
    pub fn push_last_field<T: GoodDebug>(&mut self, name: &str, t: &T)
        requires
            old(self).indent + t.debug_depth() <= 255,
        ensures
            final(self).indent == old(self).indent,
            final(self).result@ == old(self).result@ + indent_text(old(self).indent as nat) + name@ + ": "@
                + t.debug_text(old(self).indent as nat),
    {
        self.push_indent();
        self.push_str(name);
        self.result.append(": ");
        t.good_debug(self);
    }
}

/// A value that can write itself into a `Fmtter`.
pub trait GoodDebug {
    /// The text the value writes at indentation level `indent`.
    spec fn debug_text(&self, indent: nat) -> Seq<char>;

    /// How many levels of indentation the value's text goes below the
    /// current one.
    spec fn debug_depth(&self) -> nat;

    /// Appends the value's text; the indentation is back where it was.
    fn good_debug(&self, f: &mut Fmtter)
        requires
            old(f).indent + self.debug_depth() <= 255,
        ensures
            final(f).indent == old(f).indent,
            final(f).result@ == old(f).result@ + self.debug_text(old(f).indent as nat),
    ;
}

/// The text of `t`, from no indentation.
pub fn good_debug<T: GoodDebug>(t: &T) -> (r: String)
    requires
        t.debug_depth() <= 255,
    ensures
        r@ == t.debug_text(0),
{
    let mut f = Fmtter::new();
    t.good_debug(&mut f);
    assert(f.result@ =~= t.debug_text(0));
    f.result
}

/// The text of `true` or `false`.
pub open spec fn bool_text(b: bool) -> Seq<char> {
    if b {
        "true"@
    } else {
        "false"@
    }
}

impl GoodDebug for bool {
    open spec fn debug_text(&self, indent: nat) -> Seq<char> {
        bool_text(*self)
    }

    open spec fn debug_depth(&self) -> nat {
        0
    }

    fn good_debug(&self, f: &mut Fmtter) {
        if *self {
            f.push_str("true");
        } else {
            f.push_str("false");
        }
    }
}

impl GoodDebug for u8 {
    open spec fn debug_text(&self, indent: nat) -> Seq<char> {
        digits(*self as nat, 10)
    }

    open spec fn debug_depth(&self) -> nat {
        0
    }

    fn good_debug(&self, f: &mut Fmtter) {
        let s = to_digits(*self as u64, 10);
        f.push_str(s.as_str());
    }
}

impl GoodDebug for u32 {
    open spec fn debug_text(&self, indent: nat) -> Seq<char> {
        digits(*self as nat, 10)
    }

    open spec fn debug_depth(&self) -> nat {
        0
    }

    fn good_debug(&self, f: &mut Fmtter) {
        let s = to_digits(*self as u64, 10);
        f.push_str(s.as_str());
    }
}

impl GoodDebug for u64 {
    open spec fn debug_text(&self, indent: nat) -> Seq<char> {
        digits(*self as nat, 10)
    }

    open spec fn debug_depth(&self) -> nat {
        0
    }

    fn good_debug(&self, f: &mut Fmtter) {
        let s = to_digits(*self, 10);
        f.push_str(s.as_str());
    }
}

impl GoodDebug for usize {
    open spec fn debug_text(&self, indent: nat) -> Seq<char> {
        digits(*self as nat, 10)
    }

    open spec fn debug_depth(&self) -> nat {
        0
    }

    fn good_debug(&self, f: &mut Fmtter) {
        let s = to_digits(*self as u64, 10);
        f.push_str(s.as_str());
    }
}

/// The lines of a list's items at indentation `level`: each indented, then
/// its text, then a line break.
pub open spec fn list_items<T: GoodDebug>(v: Seq<T>, level: nat) -> Seq<char>
    decreases v.len(),
{
    if v.len() == 0 {
        seq![]
    } else {
        list_items(v.drop_last(), level) + indent_text(level) + v.last().debug_text(level) + "\n"@
    }
}

/// The deepest indentation that an item of `v` adds.
pub open spec fn max_depth<T: GoodDebug>(v: Seq<T>) -> nat
    decreases v.len(),
{
    if v.len() == 0 {
        0
    } else {
        let m = max_depth(v.drop_last());
        let d = v.last().debug_depth();
        if m >= d {
            m
        } else {
            d
        }
    }
}

/// Every item adds at most the deepest indentation.
pub proof fn lemma_max_depth<T: GoodDebug>(v: Seq<T>, i: int)
    requires
        0 <= i < v.len(),
    ensures
        v[i].debug_depth() <= max_depth(v),
    decreases v.len(),
{
    if i < v.len() - 1 {
        lemma_max_depth(v.drop_last(), i);
        assert(v.drop_last()[i] == v[i]);
    }
}

impl<T: GoodDebug> GoodDebug for Vec<T> {
    open spec fn debug_text(&self, indent: nat) -> Seq<char> {
        if self@.len() == 0 {
            "list"@
        } else {
            "list"@ + "\n"@ + list_items(self@, indent + 1)
        }
    }

    open spec fn debug_depth(&self) -> nat {
        1 + max_depth(self@)
    }

    fn good_debug(&self, f: &mut Fmtter) {
        f.push_str("list");
        if self.len() == 0 {
            return ;
        }
        f.push_str("\n");
        f.indent();
        let ghost head = f.result@;
        let mut i: usize = 0;
        while i < self.len()
            invariant
                i <= self@.len(),
                f.indent == old(f).indent + 1,
                old(f).indent + 1 + max_depth(self@) <= 255,
                f.result@ == head + list_items(self@.take(i as int), f.indent as nat),
            decreases self@.len() - i,
        {
            proof {
                lemma_max_depth(self@, i as int);
                assert(self@.take(i + 1).drop_last() =~= self@.take(i as int));
                assert(self@.take(i + 1).last() == self@[i as int]);
            }
            f.push_indent();
            self[i].good_debug(f);
            f.push_str("\n");
            i = i + 1;
        }
        assert(self@.take(i as int) =~= self@);
        f.unindent();
    }
}

impl GoodDebug for BitField {
    open spec fn debug_text(&self, indent: nat) -> Seq<char> {
        "BitField\n"@ + indent_text(indent + 1) + "len"@ + ": "@ + digits(self.len as nat, 10) + "\n"@
            + indent_text(indent + 1) + "data"@ + ": "@ + digits(self.data as nat, 10) + "\n"@
    }

    open spec fn debug_depth(&self) -> nat {
        1
    }

    fn good_debug(&self, f: &mut Fmtter) {
        f.push_str("BitField\n");
        f.indent();
        f.push_field("len", &self.len);
        f.push_field("data", &self.data);
        f.unindent();
    }
}

impl GoodDebug for TruthTable {
    open spec fn debug_text(&self, indent: nat) -> Seq<char> {
        "TruthTable\n"@ + indent_text(indent + 1) + "num_inputs"@ + ": "@ + digits(self.num_inputs as nat, 10)
            + "\n"@ + indent_text(indent + 1) + "num_outputs"@ + ": "@ + digits(self.num_outputs as nat, 10)
            + "\n"@ + indent_text(indent + 1) + "map"@ + ": "@ + self.map.debug_text(indent + 1) + "\n"@
    }

    open spec fn debug_depth(&self) -> nat {
        1 + self.map.debug_depth()
    }

    fn good_debug(&self, f: &mut Fmtter) {
        f.push_str("TruthTable\n");
        f.indent();
        f.push_field("num_inputs", &self.num_inputs);
        f.push_field("num_outputs", &self.num_outputs);
        f.push_field("map", &self.map);
        f.unindent();
    }
}

impl GoodDebug for LinkTarget<u64> {
    open spec fn debug_text(&self, indent: nat) -> Seq<char> {
        match *self {
            LinkTarget::DeviceInput(d, i) => "DeviceInput("@ + digits(d as nat, 10) + ", "@ + digits(i as nat, 10)
                + ")"@,
            LinkTarget::Output(o) => "Output("@ + digits(o as nat, 10) + ")"@,
        }
    }

    open spec fn debug_depth(&self) -> nat {
        0
    }

    fn good_debug(&self, f: &mut Fmtter) {
        match *self {
            LinkTarget::DeviceInput(d, i) => {
                f.push_str("DeviceInput(");
                f.push_str(to_digits(d, 10).as_str());
                f.push_str(", ");
                f.push_str(to_digits(i as u64, 10).as_str());
                f.push_str(")");
            },
            LinkTarget::Output(o) => {
                f.push_str("Output(");
                f.push_str(to_digits(o, 10).as_str());
                f.push_str(")");
            },
        }
    }
}

impl GoodDebug for LinkStart<u64> {
    open spec fn debug_text(&self, indent: nat) -> Seq<char> {
        match *self {
            LinkStart::DeviceOutput(d, o) => "DeviceOutput("@ + digits(d as nat, 10) + ", "@ + digits(o as nat, 10)
                + ")"@,
            LinkStart::Input(i) => "Input("@ + digits(i as nat, 10) + ")"@,
        }
    }

    open spec fn debug_depth(&self) -> nat {
        0
    }

    fn good_debug(&self, f: &mut Fmtter) {
        match *self {
            LinkStart::DeviceOutput(d, o) => {
                f.push_str("DeviceOutput(");
                f.push_str(to_digits(d, 10).as_str());
                f.push_str(", ");
                f.push_str(to_digits(o as u64, 10).as_str());
                f.push_str(")");
            },
            LinkStart::Input(i) => {
                f.push_str("Input(");
                f.push_str(to_digits(i, 10).as_str());
                f.push_str(")");
            },
        }
    }
}

} // verus!
