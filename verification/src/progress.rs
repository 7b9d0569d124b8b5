//! Tells the person waiting that something is happening. On a terminal it is
//! a counter updated in place and erased when done; elsewhere (CI logs, pipes)
//! it is a single line announcing the run, so nothing garbles captured output.
//! Each step gives the text to write; the caller writes it and flushes.

use vstd::prelude::*;

use crate::text::{append, chars_of, nat_text, push_nat, string_of};

verus! {

pub struct Progress {
    total: usize,
    tty: bool,
    width: usize,
}

/// The counter's line.
pub open spec fn counter_line(done: nat, total: nat) -> Seq<char> {
    "Checking "@ + nat_text(done) + seq!['/'] + nat_text(total) + " files"@
}

/// The line padded with spaces to `width`.
pub open spec fn padded(line: Seq<char>, width: nat) -> Seq<char> {
    line + Seq::new(if width > line.len() { (width - line.len()) as nat } else { 0 }, |i: int| ' ')
}

/// The widest line drawn so far, and the text a redraw writes.
pub open spec fn draw_spec(width: nat, done: nat, total: nat) -> (nat, Seq<char>) {
    let line = counter_line(done, total);
    let w = if line.len() > width { line.len() } else { width };
    (w, seq!['\r'] + padded(line, w))
}

/// The counter is erased whole: its width never shrinks and covers the line
/// drawn, and each redraw fills that width, so the spaces `finish` writes
/// cover every line `start` and `update` drew.
pub proof fn law_erase_covers_every_line(width: nat, done: nat, total: nat)
    ensures
        draw_spec(width, done, total).0 >= width,
        draw_spec(width, done, total).0 >= counter_line(done, total).len(),
        draw_spec(width, done, total).1.len() == draw_spec(width, done, total).0 + 1,
{
}

/// The width after drawing the counts `dones` in turn, starting from `width`.
pub open spec fn width_after(width: nat, dones: Seq<nat>, total: nat) -> nat
    decreases dones.len(),
{
    if dones.len() == 0 {
        width
    } else {
        draw_spec(width_after(width, dones.drop_last(), total), dones.last(), total).0
    }
}

/// The length of the longest counter line among the counts `dones`.
pub open spec fn longest_line(dones: Seq<nat>, total: nat) -> nat
    decreases dones.len(),
{
    if dones.len() == 0 {
        0
    } else {
        let m = longest_line(dones.drop_last(), total);
        let l = counter_line(dones.last(), total).len();
        if l > m { l } else { m }
    }
}

/// Over any run of redraws from a new counter, the width is that of the
/// longest line drawn so far, and each redraw pads its line to that width:
/// a frame always covers every earlier, longer one.
pub proof fn law_each_frame_covers_the_longest_so_far(dones: Seq<nat>, total: nat)
    ensures
        width_after(0, dones, total) == longest_line(dones, total),
        forall|i: int| 0 <= i < dones.len() ==> longest_line(dones, total) >= counter_line(#[trigger] dones[i], total).len(),
        dones.len() > 0 ==> draw_spec(width_after(0, dones.drop_last(), total), dones.last(), total).1 == seq!['\r']
            + padded(counter_line(dones.last(), total), longest_line(dones, total)),
    decreases dones.len(),
{
    if dones.len() > 0 {
        let init = dones.drop_last();
        law_each_frame_covers_the_longest_so_far(init, total);
        assert forall|i: int| 0 <= i < dones.len() implies longest_line(dones, total) >= counter_line(
            #[trigger] dones[i],
            total,
        ).len() by {
            if i < init.len() {
                assert(dones[i] == init[i]);
            }
        }
    }
}

impl Progress {
    pub closed spec fn total_spec(&self) -> nat {
        self.total as nat
    }

    pub closed spec fn tty_spec(&self) -> bool {
        self.tty
    }

    pub closed spec fn width_spec(&self) -> nat {
        self.width as nat
    }

    pub fn new(total: usize, tty: bool) -> (p: Progress)
        ensures
            p.total_spec() == total,
            p.tty_spec() == tty,
            p.width_spec() == 0,
    {
        Progress { total, tty, width: 0 }
    }

    /// Announces the run: nothing when there is nothing to check.
    pub fn start(&mut self) -> (r: String)
        ensures
            final(self).total_spec() == old(self).total_spec(),
            final(self).tty_spec() == old(self).tty_spec(),
            old(self).total_spec() == 0 ==> r@ == Seq::<char>::empty() && final(self).width_spec()
                == old(self).width_spec(),
            old(self).total_spec() > 0 && old(self).tty_spec() ==> {
                let (w, text) = draw_spec(old(self).width_spec(), 0, old(self).total_spec());
                r@ == text && final(self).width_spec() == w
            },
            old(self).total_spec() > 0 && !old(self).tty_spec() ==> r@ == "Checking "@ + nat_text(
                old(self).total_spec(),
            ) + seq![' '] + (if old(self).total_spec() == 1 { "file"@ } else { "files"@ }) + "...\n"@
                && final(self).width_spec() == old(self).width_spec(),
    {
        if self.total == 0 {
            return string_of(Vec::<char>::new().as_slice());
        }
        if self.tty {
            self.draw(0)
        } else {
            let mut out = chars_of("Checking ");
            push_nat(&mut out, self.total as u64);
            out.push(' ');
            if self.total == 1 {
                append(&mut out, "file");
            } else {
                append(&mut out, "files");
            }
            append(&mut out, "...\n");
            string_of(out.as_slice())
        }
    }

    /// Says how many files are done: a redraw on a terminal, else nothing.
    pub fn update(&mut self, done: usize) -> (r: String)
        ensures
            final(self).total_spec() == old(self).total_spec(),
            final(self).tty_spec() == old(self).tty_spec(),
            old(self).tty_spec() ==> {
                let (w, text) = draw_spec(old(self).width_spec(), done as nat, old(self).total_spec());
                r@ == text && final(self).width_spec() == w
            },
            !old(self).tty_spec() ==> r@ == Seq::<char>::empty() && final(self).width_spec()
                == old(self).width_spec(),
    {
        if self.tty {
            self.draw(done)
        } else {
            string_of(Vec::<char>::new().as_slice())
        }
    }

    /// Erases the counter, if one was drawn.
    pub fn finish(&mut self) -> (r: String)
        ensures
            final(self).total_spec() == old(self).total_spec(),
            final(self).tty_spec() == old(self).tty_spec(),
            final(self).width_spec() == old(self).width_spec(),
            r@ == if !old(self).tty_spec() || old(self).width_spec() == 0 {
                Seq::<char>::empty()
            } else {
                seq!['\r'] + Seq::new(old(self).width_spec(), |i: int| ' ') + seq!['\r']
            },
    {
        if !self.tty || self.width == 0 {
            return string_of(Vec::<char>::new().as_slice());
        }
        let mut out: Vec<char> = Vec::new();
        out.push('\r');
        let mut i: usize = 0;
        while i < self.width
            invariant
                i <= self.width,
                out@ =~= seq!['\r'] + Seq::new(i as nat, |k: int| ' '),
            decreases self.width - i,
        {
            out.push(' ');
            i += 1;
        }
        out.push('\r');
        assert(out@ =~= seq!['\r'] + Seq::new(self.width as nat, |i: int| ' ') + seq!['\r']);
        string_of(out.as_slice())
    }

    fn draw(&mut self, done: usize) -> (r: String)
        ensures
            final(self).total_spec() == old(self).total_spec(),
            final(self).tty_spec() == old(self).tty_spec(),
            ({
                let (w, text) = draw_spec(old(self).width_spec(), done as nat, old(self).total_spec());
                r@ == text && final(self).width_spec() == w
            }),
    {
        let mut line = chars_of("Checking ");
        push_nat(&mut line, done as u64);
        line.push('/');
        push_nat(&mut line, self.total as u64);
        append(&mut line, " files");
        assert(line@ =~= counter_line(done as nat, self.total as nat));
        if line.len() > self.width {
            self.width = line.len();
        }
        let mut out: Vec<char> = Vec::new();
        out.push('\r');
        crate::text::extend(&mut out, line.as_slice());
        let mut k: usize = line.len();
        while k < self.width
            invariant
                line.len() <= k <= self.width,
                out@ =~= seq!['\r'] + line@ + Seq::new((k - line.len()) as nat, |i: int| ' '),
            decreases self.width - k,
        {
            out.push(' ');
            k += 1;
        }
        assert(out@ =~= seq!['\r'] + padded(line@, self.width as nat));
        string_of(out.as_slice())
    }
}

} // verus!
