//! Elements of a terminal user interface: text, headings and framed containers.
//!
//! An element knows how many character cells it takes up and what it draws.
//! Drawing yields the characters to put on the terminal; putting them there is
//! left to the caller.

use crate::text::{push_repeated, repeated};
use vstd::prelude::*;
use vstd::string::StringExecFns;

verus! {

/// The extent of an element on the terminal.
pub struct Dimensions {
    pub width: usize,
    pub height: usize,
}

/// Something that can be drawn on the terminal.
pub trait Element {
    /// The extents of the element and of what it contains fit machine words.
    spec fn fits(&self) -> bool;

    /// Width and height of the element.
    spec fn extent(&self) -> (nat, nat);

    /// The characters that draw the element.
    spec fn drawing(&self) -> Seq<char>;

    /// Whether the extents of the element and of what it contains fit machine
    /// words, so that it can be measured and drawn.
    fn check_fits(&self) -> (ok: bool)
        ensures
            ok == self.fits(),
    ;

    /// Width and height of the element.
    fn dimensions(&self) -> (d: Dimensions)
        requires
            self.fits(),
        ensures
            (d.width as nat, d.height as nat) == self.extent(),
    ;

    /// The characters that draw the element.
    fn render(&self) -> (out: String)
        requires
            self.fits(),
        ensures
            out@ == self.drawing(),
    ;
}

/// A line of text.
pub struct Text {
    text: String,
}

impl Text {
    /// The characters of the text.
    pub closed spec fn content(&self) -> Seq<char> {
        self.text@
    }

    /// A text element that shows `text`.
    pub fn new(text: String) -> (t: Self)
        ensures
            t.content() == text@,
    {
        Text { text }
    }
}

impl Element for Text {
    open spec fn fits(&self) -> bool {
        true
    }

    /// A text is one line high and as wide as it has bytes.
    open spec fn extent(&self) -> (nat, nat) {
        (vstd::utf8::encode_utf8(self.content()).len() as usize as nat, 1)
    }

    open spec fn drawing(&self) -> Seq<char> {
        self.content()
    }

    fn check_fits(&self) -> (ok: bool) {
        true
    }

    fn dimensions(&self) -> (d: Dimensions) {
        Dimensions { width: self.text.as_str().len(), height: 1 }
    }

    fn render(&self) -> (out: String) {
        self.text.clone()
    }
}

/// The escape sequence that switches to bold type.
pub open spec fn bold_on() -> Seq<char> {
    seq!['\u{1b}', '[', '1', 'm']
}

/// The escape sequence that switches all attributes off.
pub open spec fn bold_off() -> Seq<char> {
    seq!['\u{1b}', '[', '0', 'm']
}

/// A line of text in bold type.
pub struct Heading {
    text: Text,
}

impl Heading {
    /// The characters of the heading.
    pub closed spec fn content(&self) -> Seq<char> {
        self.text.content()
    }

    /// A heading that shows `text`.
    pub fn new(text: String) -> (h: Self)
        ensures
            h.content() == text@,
    {
        Heading { text: Text::new(text) }
    }
}

impl Element for Heading {
    open spec fn fits(&self) -> bool {
        true
    }

    /// A heading takes up what its text takes up.
    open spec fn extent(&self) -> (nat, nat) {
        (vstd::utf8::encode_utf8(self.content()).len() as usize as nat, 1)
    }

    open spec fn drawing(&self) -> Seq<char> {
        bold_on() + self.content() + bold_off()
    }

    fn check_fits(&self) -> (ok: bool) {
        true
    }

    fn dimensions(&self) -> (d: Dimensions) {
        self.text.dimensions()
    }

    fn render(&self) -> (out: String) {
        let mut out = String::new();
        out.push('\u{1b}');
        out.push('[');
        out.push('1');
        out.push('m');
        let inner = self.text.render();
        out.append(inner.as_str());
        out.push('\u{1b}');
        out.push('[');
        out.push('0');
        out.push('m');
        proof {
            assert(out@ =~= bold_on() + self.content() + bold_off());
        }
        out
    }
}

/// Width of the widest of the first `n` elements; zero where there is none.
pub open spec fn widest(children: Seq<Box<dyn Element>>, n: int) -> nat
    decreases n,
{
    if n <= 0 {
        0
    } else {
        let before = widest(children, n - 1);
        let w = children[n - 1].extent().0;
        if w > before {
            w
        } else {
            before
        }
    }
}

/// Sum of the heights of the first `n` elements.
pub open spec fn stacked(children: Seq<Box<dyn Element>>, n: int) -> nat
    decreases n,
{
    if n <= 0 {
        0
    } else {
        stacked(children, n - 1) + children[n - 1].extent().1
    }
}

/// The top or bottom edge of a frame `width` cells wide, with its line break.
pub open spec fn frame_edge(width: int) -> Seq<char> {
    seq!['+'] + repeated('-', width - 2) + seq!['+', '\n']
}

/// One element between the sides of a frame `width` cells wide: what the
/// element draws, blanks on its right up to the frame, and the line break.
pub open spec fn framed_row(drawing: Seq<char>, own_width: int, width: int) -> Seq<char> {
    seq!['|'] + drawing + repeated(' ', width - 2 - own_width) + seq!['|', '\n']
}

/// The rows of the first `n` elements, one below the other.
pub open spec fn framed_rows(children: Seq<Box<dyn Element>>, width: int, n: int) -> Seq<char>
    decreases n,
{
    if n <= 0 {
        Seq::empty()
    } else {
        framed_rows(children, width, n - 1) + framed_row(
            children[n - 1].drawing(),
            children[n - 1].extent().0 as int,
            width,
        )
    }
}

/// Elements one below the other inside a frame.
pub struct Container {
    children: Vec<Box<dyn Element>>,
}

impl Container {
    /// The elements inside the frame, from top to bottom.
    pub closed spec fn content(&self) -> Seq<Box<dyn Element>> {
        self.children@
    }

    /// A frame around `children`.
    pub fn new(children: Vec<Box<dyn Element>>) -> (c: Self)
        ensures
            c.content() == children@,
    {
        Container { children }
    }
}

impl Element for Container {
    /// Every element inside fits, and so do the frame around the widest of them
    /// and the sum of their heights.
    open spec fn fits(&self) -> bool {
        &&& forall|i: int| 0 <= i < self.content().len() ==> (#[trigger] self.content()[i]).fits()
        &&& widest(self.content(), self.content().len() as int) + 2 <= usize::MAX
        &&& stacked(self.content(), self.content().len() as int) <= usize::MAX
    }

    /// A container is two cells wider than the widest element inside, and as
    /// high as all of them together.
    open spec fn extent(&self) -> (nat, nat) {
        (
            widest(self.content(), self.content().len() as int) + 2,
            stacked(self.content(), self.content().len() as int),
        )
    }

    open spec fn drawing(&self) -> Seq<char> {
        let width = self.extent().0 as int;
        frame_edge(width) + framed_rows(self.content(), width, self.content().len() as int)
            + frame_edge(width)
    }

    fn check_fits(&self) -> (ok: bool) {
        let mut width: usize = 0;
        let mut height: usize = 0;
        let mut i: usize = 0;
        while i < self.children.len()
            invariant
                i <= self.children@.len(),
                forall|j: int| 0 <= j < i ==> (#[trigger] self.children@[j]).fits(),
                width == widest(self.children@, i as int),
                height == stacked(self.children@, i as int),
            decreases self.children@.len() - i,
        {
            if !self.children[i].check_fits() {
                return false;
            }
            let dims = self.children[i].dimensions();
            proof {
                lemma_extents_grow(self.children@, i as int + 1, self.children@.len() as int);
            }
            if dims.width > width {
                width = dims.width;
            }
            match height.checked_add(dims.height) {
                Some(sum) => {
                    height = sum;
                },
                None => {
                    return false;
                },
            }
            i += 1;
        }
        width.checked_add(2).is_some()
    }

    fn dimensions(&self) -> (d: Dimensions) {
        let mut width: usize = 0;
        let mut height: usize = 0;
        let mut i: usize = 0;
        while i < self.children.len()
            invariant
                self.fits(),
                i <= self.children@.len(),
                width == widest(self.children@, i as int),
                height == stacked(self.children@, i as int),
            decreases self.children@.len() - i,
        {
            let dims = self.children[i].dimensions();
            proof {
                lemma_extents_grow(self.children@, i as int + 1, self.children@.len() as int);
            }
            if dims.width > width {
                width = dims.width;
            }
            height = height + dims.height;
            i += 1;
        }
        Dimensions { width: width + 2, height }
    }

    fn render(&self) -> (out: String) {
        let dims = self.dimensions();
        let mut out = String::new();
        push_edge(&mut out, dims.width);
        let ghost top = out@;
        let mut i: usize = 0;
        while i < self.children.len()
            invariant
                self.fits(),
                i <= self.children@.len(),
                dims.width == self.extent().0,
                out@ == top + framed_rows(self.children@, dims.width as int, i as int),
            decreases self.children@.len() - i,
        {
            let child = &self.children[i];
            let child_dims = child.dimensions();
            proof {
                lemma_widest_covers(self.children@, self.children@.len() as int, i as int);
            }
            let ghost before = out@;
            let ghost rows = framed_rows(self.children@, dims.width as int, i as int);
            out.push('|');
            let inner = child.render();
            out.append(inner.as_str());
            push_repeated(&mut out, ' ', dims.width - 2 - child_dims.width);
            out.push('|');
            out.push('\n');
            i += 1;
            proof {
                let row = framed_row(inner@, child_dims.width as int, dims.width as int);
                assert(out@ =~= before + row);
                assert(framed_rows(self.children@, dims.width as int, i as int) == rows + row);
                assert(out@ =~= top + (rows + row));
            }
        }
        push_edge(&mut out, dims.width);
        out
    }
}

/// Appends the top or bottom edge of a frame `width` cells wide.
fn push_edge(out: &mut String, width: usize)
    requires
        width >= 2,
    ensures
        final(out)@ == old(out)@ + frame_edge(width as int),
{
    out.push('+');
    push_repeated(out, '-', width - 2);
    out.push('+');
    out.push('\n');
    proof {
        assert(out@ =~= old(out)@ + frame_edge(width as int));
    }
}

/// The widest and the stacked height of the first `n` elements are at most
/// those of the first `m`, for `n <= m`.
pub proof fn lemma_extents_grow(children: Seq<Box<dyn Element>>, n: int, m: int)
    requires
        0 <= n <= m <= children.len(),
    ensures
        widest(children, n) <= widest(children, m),
        stacked(children, n) <= stacked(children, m),
    decreases m - n,
{
    if n < m {
        lemma_extents_grow(children, n, m - 1);
    }
}

/// None of the first `n` elements is wider than the widest of them.
pub proof fn lemma_widest_covers(children: Seq<Box<dyn Element>>, n: int, i: int)
    requires
        0 <= i < n <= children.len(),
    ensures
        children[i].extent().0 <= widest(children, n),
    decreases n,
{
    if i < n - 1 {
        lemma_widest_covers(children, n - 1, i);
    }
}

} // verus!
