//! The L-system grammar and its verified turtle interpreter.

use vstd::prelude::*;
use crate::geometry::{
    Vec2, BoundingBox, Box2, bb_add, bb_contains, bb_fold, lemma_bb_fold_append,
    lemma_bb_fold_covers, lemma_bb_fold_pair, lemma_covers_contains,
};
use vstd::arithmetic::power::pow;

verus! {

/// An L-system grammar: the initiator string, the production rules, the step length
/// of a forward move, the heading change of a turn, and the ceiling on
/// how many expansion levels a symbol may pass through.
///
/// Angles are integers in a caller-chosen unit (degrees, millidegrees,
/// ...); `line_len` is carried for the caller that evaluates direction
/// vectors and is not consumed by the interpreter itself.  Rules are a
/// small association list; a later entry for a key shadows earlier ones,
/// and a symbol without an entry is terminal.
pub struct LSystem {
    pub line_len: i32,
    pub max_iterations: u32,
    pub angle_change: i64,
    pub initiator: String,
    pub rules: Vec<(char, String)>,
}

/// The replacement string for `c`: the first entry of `rules` whose key
/// is `c`, if any.
pub open spec fn rule_lookup(rules: Seq<(char, String)>, c: char) -> Option<Seq<char>>
    decreases rules.len(),
{
    if rules.len() == 0 {
        None
    } else if rules[0].0 == c {
        Some(rules[0].1@)
    } else {
        rule_lookup(rules.skip(1), c)
    }
}

/// How many expansion levels are still open at `depth`.  This is the
/// measure that bounds the recursion of the interpreter: a forward
/// symbol expands only while `depth < max`, and expansion raises the
/// depth by one.
pub open spec fn depth_left(max: nat, depth: nat) -> nat {
    if depth < max {
        (max - depth) as nat
    } else {
        0
    }
}

/// The number of `'F'` symbols in `s`.
pub open spec fn count_f(s: Seq<char>) -> nat
    decreases s.len(),
{
    if s.len() == 0 {
        0
    } else {
        (if s[0] == 'F' {
            1nat
        } else {
            0nat
        }) + count_f(s.skip(1))
    }
}

/// The outcome of the heading pass over one symbol string.
pub ghost struct HeadTrace {
    /// The exact heading at each forward move, in the order the moves
    /// are reached (a parent's move comes before the moves of the rule
    /// it expands into, which come before the rest of the parent).
    pub moves: Seq<int>,
    /// The heading after the whole string, as the turns left it.
    pub end_heading: int,
    /// Whether every heading along the way stays within `i64`.
    pub ok: bool,
}

/// The outcome of the drawing pass over one symbol string.
pub ghost struct DrawTrace {
    /// The emitted segments, each a start and an end point.
    pub segs: Seq<((int, int), (int, int))>,
    /// Every point recorded into the bounding box, in order: both the
    /// pre-move and the post-move point of each forward symbol, whether
    /// or not the symbol expands.
    pub pts: Seq<(int, int)>,
    /// How many direction vectors were consumed: one per forward symbol
    /// reached, counting expanded ones.
    pub used: nat,
    /// The turtle position after the whole string.  Expansion does not
    /// advance it: only terminal moves do.
    pub end_pos: (int, int),
    /// Whether enough direction vectors were supplied and every
    /// position along the way stays within `i64`.
    pub ok: bool,
}

/// The heading pass: what heading each forward move of the expansion of
/// `s` is taken at, starting from `heading` with `depth` levels already
/// consumed.
///
/// `'+'` adds `angle` to the heading and `'-'` subtracts it; `'F'`
/// records the current heading and, while `depth < max` and a rule for
/// `'F'` exists, descends into the replacement string at `depth + 1`
/// with the same heading; any other symbol does nothing.  Turns inside
/// a replacement string stay local to it: the parent's heading is
/// unchanged when the descent returns.
pub open spec fn head_trace(
    rules: Seq<(char, String)>,
    max: nat,
    angle: int,
    s: Seq<char>,
    heading: int,
    depth: nat,
) -> HeadTrace
    decreases depth_left(max, depth), s.len(),
{
    if s.len() == 0 {
        HeadTrace { moves: Seq::empty(), end_heading: heading, ok: true }
    } else if s[0] == 'F' {
        if depth < max && rule_lookup(rules, 'F') is Some {
            let sub = head_trace(rules, max, angle, rule_lookup(rules, 'F')->0, heading, depth + 1);
            let rest = head_trace(rules, max, angle, s.skip(1), heading, depth);
            HeadTrace {
                moves: seq![heading] + sub.moves + rest.moves,
                end_heading: rest.end_heading,
                ok: sub.ok && rest.ok,
            }
        } else {
            let rest = head_trace(rules, max, angle, s.skip(1), heading, depth);
            HeadTrace {
                moves: seq![heading] + rest.moves,
                end_heading: rest.end_heading,
                ok: rest.ok,
            }
        }
    } else if s[0] == '+' {
        let rest = head_trace(rules, max, angle, s.skip(1), heading + angle, depth);
        HeadTrace {
            moves: rest.moves,
            end_heading: rest.end_heading,
            ok: i64::MIN <= heading + angle <= i64::MAX && rest.ok,
        }
    } else if s[0] == '-' {
        let rest = head_trace(rules, max, angle, s.skip(1), heading - angle, depth);
        HeadTrace {
            moves: rest.moves,
            end_heading: rest.end_heading,
            ok: i64::MIN <= heading - angle <= i64::MAX && rest.ok,
        }
    } else {
        head_trace(rules, max, angle, s.skip(1), heading, depth)
    }
}

/// The drawing pass: the segments and bounding-box points that the
/// expansion of `s` produces from `pos` with `depth` levels already
/// consumed, when the forward moves take the displacements `dirs`, one
/// per forward symbol in the order of [`head_trace`]'s `moves`.
///
/// A forward symbol first records its pre-move and post-move points for
/// the bounding box.  While `depth < max` and a rule for `'F'` exists it
/// then descends into the replacement string from the pre-move point —
/// the replacement supplies the actual moves — and the turtle stays at
/// the pre-move point afterwards.  Otherwise the move is terminal: the
/// segment is emitted and the turtle advances.  Turns are consumed by
/// the heading pass and are no-ops here, as is any other symbol.
pub open spec fn draw_trace(
    rules: Seq<(char, String)>,
    max: nat,
    s: Seq<char>,
    pos: (int, int),
    depth: nat,
    dirs: Seq<(int, int)>,
) -> DrawTrace
    decreases depth_left(max, depth), s.len(),
{
    if s.len() == 0 {
        DrawTrace { segs: Seq::empty(), pts: Seq::empty(), used: 0, end_pos: pos, ok: true }
    } else if s[0] == 'F' {
        let d = dirs[0];
        let next = (pos.0 + d.0, pos.1 + d.1);
        let fits = dirs.len() >= 1 && i64::MIN <= next.0 <= i64::MAX && i64::MIN <= next.1
            <= i64::MAX;
        if depth < max && rule_lookup(rules, 'F') is Some {
            let sub = draw_trace(
                rules,
                max,
                rule_lookup(rules, 'F')->0,
                pos,
                depth + 1,
                dirs.skip(1),
            );
            let rest = draw_trace(rules, max, s.skip(1), pos, depth, dirs.skip(1 + sub.used as int));
            DrawTrace {
                segs: sub.segs + rest.segs,
                pts: seq![pos, next] + sub.pts + rest.pts,
                used: 1 + sub.used + rest.used,
                end_pos: rest.end_pos,
                ok: fits && sub.ok && rest.ok,
            }
        } else {
            let rest = draw_trace(rules, max, s.skip(1), next, depth, dirs.skip(1));
            DrawTrace {
                segs: seq![(pos, next)] + rest.segs,
                pts: seq![pos, next] + rest.pts,
                used: 1 + rest.used,
                end_pos: rest.end_pos,
                ok: fits && rest.ok,
            }
        }
    } else {
        draw_trace(rules, max, s.skip(1), pos, depth, dirs)
    }
}

/// The integer view of a sequence of vectors.
pub open spec fn dirs_view(dirs: Seq<Vec2>) -> Seq<(int, int)> {
    dirs.map_values(|v: Vec2| v@)
}

/// The integer view of a sequence of segments.
pub open spec fn segs_view(segs: Seq<(Vec2, Vec2)>) -> Seq<((int, int), (int, int))> {
    segs.map_values(|sg: (Vec2, Vec2)| (sg.0@, sg.1@))
}

/// The integer view of a sequence of headings.
pub open spec fn moves_view(moves: Seq<i64>) -> Seq<int> {
    moves.map_values(|h: i64| h as int)
}

impl LSystem {
    /// The replacement string for `symbol`, if the grammar has one.
    pub fn rule_for(&self, symbol: char) -> (r: Option<&String>)
        ensures
            match r {
                Some(replacement) => rule_lookup(self.rules@, symbol) == Some(replacement@),
                None => rule_lookup(self.rules@, symbol) is None,
            },
    {
        let n = self.rules.len();
        let mut j: usize = 0;
        proof {
            assert(self.rules@.skip(0) =~= self.rules@);
        }
        while j < n
            invariant
                j <= n,
                n == self.rules@.len(),
                rule_lookup(self.rules@, symbol) == rule_lookup(self.rules@.skip(j as int), symbol),
            decreases n - j,
        {
            let entry = &self.rules[j];
            if entry.0 == symbol {
                assert(self.rules@.skip(j as int)[0] == self.rules@[j as int]);
                return Some(&entry.1);
            }
            proof {
                assert(self.rules@.skip(j as int).skip(1) =~= self.rules@.skip(j as int + 1));
            }
            j = j + 1;
        }
        proof {
            assert(self.rules@.skip(j as int) =~= Seq::<(char, String)>::empty());
        }
        None
    }

    /// The heading pass from the middle of a string: interpret
    /// `instructions` from character `i` on, starting at `heading` with
    /// `depth` expansion levels consumed, and append the heading of
    /// every forward move to `out`.
    fn headings_rec(&self, instructions: &str, i: usize, heading: i64, depth: u32, out: &mut Vec<i64>)
        requires
            i <= instructions@.len(),
            head_trace(
                self.rules@,
                self.max_iterations as nat,
                self.angle_change as int,
                instructions@.skip(i as int),
                heading as int,
                depth as nat,
            ).ok,
        ensures
            moves_view(final(out)@) == moves_view(old(out)@) + head_trace(
                self.rules@,
                self.max_iterations as nat,
                self.angle_change as int,
                instructions@.skip(i as int),
                heading as int,
                depth as nat,
            ).moves,
        decreases depth_left(self.max_iterations as nat, depth as nat), instructions@.len() - i,
    {
        let ghost t = head_trace(
            self.rules@,
            self.max_iterations as nat,
            self.angle_change as int,
            instructions@.skip(i as int),
            heading as int,
            depth as nat,
        );
        if i == instructions.unicode_len() {
            proof {
                assert(instructions@.skip(i as int) =~= Seq::<char>::empty());
                assert(moves_view(out@) =~= moves_view(out@) + t.moves);
            }
            return ;
        }
        let c = instructions.get_char(i);
        proof {
            assert(instructions@.skip(i as int)[0] == instructions@[i as int]);
            assert(instructions@.skip(i as int).skip(1) =~= instructions@.skip(i as int + 1));
        }
        if c == 'F' {
            let ghost before = out@;
            out.push(heading);
            proof {
                assert(moves_view(out@) =~= moves_view(before).push(heading as int));
            }
            if depth < self.max_iterations {
                match self.rule_for('F') {
                    Some(replacement) => {
                        proof {
                            assert(replacement@.skip(0) =~= replacement@);
                        }
                        self.headings_rec(replacement.as_str(), 0, heading, depth + 1, out);
                        self.headings_rec(instructions, i + 1, heading, depth, out);
                        proof {
                            assert(moves_view(out@) =~= moves_view(before) + t.moves);
                        }
                    },
                    None => {
                        self.headings_rec(instructions, i + 1, heading, depth, out);
                        proof {
                            assert(moves_view(out@) =~= moves_view(before) + t.moves);
                        }
                    },
                }
            } else {
                self.headings_rec(instructions, i + 1, heading, depth, out);
                proof {
                    assert(moves_view(out@) =~= moves_view(before) + t.moves);
                }
            }
        } else if c == '+' {
            let turned = heading + self.angle_change;
            self.headings_rec(instructions, i + 1, turned, depth, out);
        } else if c == '-' {
            let turned = heading - self.angle_change;
            self.headings_rec(instructions, i + 1, turned, depth, out);
        } else {
            self.headings_rec(instructions, i + 1, heading, depth, out);
        }
    }

    /// The heading pass: interpret `instructions` from `start_heading`
    /// with `cur_iterations` expansion levels already consumed, and
    /// append to `out` the exact heading of every forward move of the
    /// expansion, in the order the moves are reached.
    ///
    /// A caller turns each reported heading into a displacement vector
    /// (the step length times the heading's unit direction, in its own
    /// units) and hands those to [`LSystem::draw`].
    pub fn headings(&self, instructions: &str, start_heading: i64, cur_iterations: u32, out: &mut Vec<i64>)
        requires
            head_trace(
                self.rules@,
                self.max_iterations as nat,
                self.angle_change as int,
                instructions@,
                start_heading as int,
                cur_iterations as nat,
            ).ok,
        ensures
            moves_view(final(out)@) == moves_view(old(out)@) + head_trace(
                self.rules@,
                self.max_iterations as nat,
                self.angle_change as int,
                instructions@,
                start_heading as int,
                cur_iterations as nat,
            ).moves,
    {
        proof {
            assert(instructions@.skip(0) =~= instructions@);
        }
        self.headings_rec(instructions, 0, start_heading, cur_iterations, out);
    }

    /// The drawing pass from the middle of a string: interpret
    /// `instructions` from character `i` on at position `pos` with
    /// `depth` expansion levels consumed, taking the displacement of
    /// each forward move from `dirs` starting at index `at`.  Returns
    /// how many displacements were consumed.
    fn draw_rec(
        &self,
        instructions: &str,
        i: usize,
        pos: Vec2,
        depth: u32,
        dirs: &Vec<Vec2>,
        at: usize,
        segments: &mut Vec<(Vec2, Vec2)>,
        bbox: &mut BoundingBox,
    ) -> (used: usize)
        requires
            i <= instructions@.len(),
            at <= dirs@.len(),
            draw_trace(
                self.rules@,
                self.max_iterations as nat,
                instructions@.skip(i as int),
                pos@,
                depth as nat,
                dirs_view(dirs@).skip(at as int),
            ).ok,
        ensures
            ({
                let t = draw_trace(
                    self.rules@,
                    self.max_iterations as nat,
                    instructions@.skip(i as int),
                    pos@,
                    depth as nat,
                    dirs_view(dirs@).skip(at as int),
                );
                &&& used as int == t.used as int
                &&& at + used <= dirs@.len()
                &&& segs_view(final(segments)@) == segs_view(old(segments)@) + t.segs
                &&& final(bbox)@ == bb_fold(old(bbox)@, t.pts)
            }),
        decreases depth_left(self.max_iterations as nat, depth as nat), instructions@.len() - i,
    {
        let ghost t = draw_trace(
            self.rules@,
            self.max_iterations as nat,
            instructions@.skip(i as int),
            pos@,
            depth as nat,
            dirs_view(dirs@).skip(at as int),
        );
        let ghost ds = dirs_view(dirs@).skip(at as int);
        if i == instructions.unicode_len() {
            proof {
                assert(instructions@.skip(i as int) =~= Seq::<char>::empty());
                assert(segs_view(segments@) =~= segs_view(segments@) + t.segs);
            }
            return 0;
        }
        let c = instructions.get_char(i);
        proof {
            assert(instructions@.skip(i as int)[0] == instructions@[i as int]);
            assert(instructions@.skip(i as int).skip(1) =~= instructions@.skip(i as int + 1));
        }
        if c == 'F' {
            proof {
                assert(ds[0] == dirs@[at as int]@);
            }
            let dirs_len = dirs.len();
            proof {
                assert(at < dirs_len);
            }
            let d = dirs[at];
            let next = pos.add(d);
            let ghost b0 = bbox@;
            bbox.update(pos);
            bbox.update(next);
            proof {
                lemma_bb_fold_pair(b0, pos@, next@);
            }
            let expansion = if depth < self.max_iterations {
                self.rule_for('F')
            } else {
                None
            };
            match expansion {
                Some(replacement) => {
                    let ghost sub = draw_trace(
                        self.rules@,
                        self.max_iterations as nat,
                        replacement@,
                        pos@,
                        depth as nat + 1,
                        ds.skip(1),
                    );
                    let ghost rest = draw_trace(
                        self.rules@,
                        self.max_iterations as nat,
                        instructions@.skip(i as int + 1),
                        pos@,
                        depth as nat,
                        ds.skip(1 + sub.used as int),
                    );
                    let ghost segs0 = segments@;
                    proof {
                        assert(replacement@.skip(0) =~= replacement@);
                        assert(dirs_view(dirs@).skip(at as int + 1) =~= ds.skip(1));
                    }
                    let sub_used = self.draw_rec(
                        replacement.as_str(),
                        0,
                        pos,
                        depth + 1,
                        dirs,
                        at + 1,
                        segments,
                        bbox,
                    );
                    proof {
                        assert(dirs_view(dirs@).skip(at as int + 1 + sub_used as int) =~= ds.skip(
                            1 + sub.used as int));
                    }
                    let rest_used = self.draw_rec(
                        instructions,
                        i + 1,
                        pos,
                        depth,
                        dirs,
                        at + 1 + sub_used,
                        segments,
                        bbox,
                    );
                    proof {
                        assert(segs_view(segments@) =~= segs_view(segs0) + t.segs);
                        let q = seq![pos@, next@];
                        assert(t.pts =~= (q + sub.pts) + rest.pts);
                        lemma_bb_fold_append(b0, q, sub.pts);
                        lemma_bb_fold_append(b0, q + sub.pts, rest.pts);
                    }
                    1 + sub_used + rest_used
                },
                None => {
                    let ghost rest = draw_trace(
                        self.rules@,
                        self.max_iterations as nat,
                        instructions@.skip(i as int + 1),
                        next@,
                        depth as nat,
                        ds.skip(1),
                    );
                    let ghost segs0 = segments@;
                    segments.push((pos, next));
                    proof {
                        assert(segs_view(segments@) =~= segs_view(segs0).push((pos@, next@)));
                        assert(dirs_view(dirs@).skip(at as int + 1) =~= ds.skip(1));
                    }
                    let rest_used = self.draw_rec(
                        instructions,
                        i + 1,
                        next,
                        depth,
                        dirs,
                        at + 1,
                        segments,
                        bbox,
                    );
                    proof {
                        assert(segs_view(segments@) =~= segs_view(segs0) + t.segs);
                        let q = seq![pos@, next@];
                        assert(t.pts =~= q + rest.pts);
                        lemma_bb_fold_append(b0, q, rest.pts);
                    }
                    1 + rest_used
                },
            }
        } else {
            self.draw_rec(instructions, i + 1, pos, depth, dirs, at, segments, bbox)
        }
    }

    /// The drawing pass: interpret `instructions` at `start_pos` with
    /// `cur_iterations` expansion levels already consumed, taking the
    /// displacement of each forward move from `dirs` (one entry per
    /// heading reported by [`LSystem::headings`], in the same order).
    /// Emitted segments are appended to `segments` and every endpoint is
    /// recorded into `bbox`; both accumulators are otherwise untouched.
    /// Returns how many displacements were consumed.
    pub fn draw(
        &self,
        instructions: &str,
        start_pos: Vec2,
        cur_iterations: u32,
        dirs: &Vec<Vec2>,
        segments: &mut Vec<(Vec2, Vec2)>,
        bbox: &mut BoundingBox,
    ) -> (used: usize)
        requires
            draw_trace(
                self.rules@,
                self.max_iterations as nat,
                instructions@,
                start_pos@,
                cur_iterations as nat,
                dirs_view(dirs@),
            ).ok,
        ensures
            ({
                let t = draw_trace(
                    self.rules@,
                    self.max_iterations as nat,
                    instructions@,
                    start_pos@,
                    cur_iterations as nat,
                    dirs_view(dirs@),
                );
                &&& used as int == t.used as int
                &&& used <= dirs@.len()
                &&& segs_view(final(segments)@) == segs_view(old(segments)@) + t.segs
                &&& final(bbox)@ == bb_fold(old(bbox)@, t.pts)
            }),
    {
        proof {
            assert(instructions@.skip(0) =~= instructions@);
            assert(dirs_view(dirs@).skip(0) =~= dirs_view(dirs@));
        }
        self.draw_rec(instructions, 0, start_pos, cur_iterations, dirs, 0, segments, bbox)
    }
}

/// An incremental way to put an [`LSystem`] together: start from the
/// initiator string, override the defaults field by field, then build.
pub struct LSystemBuilder {
    pub line_len: i32,
    pub max_iterations: u32,
    pub angle_change: i64,
    pub initiator: String,
    pub rules: Vec<(char, String)>,
}

impl LSystemBuilder {
    /// A builder with the given initiator string, step length 1, one
    /// expansion level, no heading change and no rules.
    pub fn new(initiator: String) -> (b: LSystemBuilder)
        ensures
            b.line_len == 1,
            b.max_iterations == 1,
            b.angle_change == 0,
            b.initiator@ == initiator@,
            b.rules@ =~= Seq::<(char, String)>::empty(),
    {
        LSystemBuilder {
            line_len: 1,
            max_iterations: 1,
            angle_change: 0,
            initiator,
            rules: Vec::new(),
        }
    }

    /// Override the step length of a forward move.
    pub fn line_len(self, len: i32) -> (b: LSystemBuilder)
        ensures
            b.line_len == len,
            b.max_iterations == self.max_iterations,
            b.angle_change == self.angle_change,
            b.initiator@ == self.initiator@,
            b.rules@ == self.rules@,
    {
        LSystemBuilder { line_len: len, ..self }
    }

    /// Override the expansion-depth ceiling.
    pub fn max_iterations(self, iters: u32) -> (b: LSystemBuilder)
        ensures
            b.line_len == self.line_len,
            b.max_iterations == iters,
            b.angle_change == self.angle_change,
            b.initiator@ == self.initiator@,
            b.rules@ == self.rules@,
    {
        LSystemBuilder { max_iterations: iters, ..self }
    }

    /// Override the initiator string.
    pub fn initiator(self, initiator: &str) -> (b: LSystemBuilder)
        ensures
            b.line_len == self.line_len,
            b.max_iterations == self.max_iterations,
            b.angle_change == self.angle_change,
            b.initiator@ == initiator@,
            b.rules@ == self.rules@,
    {
        LSystemBuilder { initiator: initiator.to_owned(), ..self }
    }

    /// Override the heading change of a turn symbol.
    pub fn angle_change(self, angle: i64) -> (b: LSystemBuilder)
        ensures
            b.line_len == self.line_len,
            b.max_iterations == self.max_iterations,
            b.angle_change == angle,
            b.initiator@ == self.initiator@,
            b.rules@ == self.rules@,
    {
        LSystemBuilder { angle_change: angle, ..self }
    }

    /// Set the replacement string for `key`, shadowing any replacement
    /// the builder already had for it and leaving every other symbol's
    /// replacement as it was.
    pub fn rule(self, key: char, value: &str) -> (b: LSystemBuilder)
        ensures
            b.line_len == self.line_len,
            b.max_iterations == self.max_iterations,
            b.angle_change == self.angle_change,
            b.initiator@ == self.initiator@,
            rule_lookup(b.rules@, key) == Some(value@),
            forall|c: char|
                c != key ==> #[trigger] rule_lookup(b.rules@, c) == rule_lookup(self.rules@, c),
    {
        let ghost before = self.rules@;
        let mut updated = self;
        updated.rules.insert(0, (key, value.to_owned()));
        proof {
            assert(updated.rules@.skip(1) =~= before);
            assert(updated.rules@.len() > 0);
        }
        updated
    }

    /// The finished grammar.
    pub fn build(self) -> (system: LSystem)
        ensures
            system.line_len == self.line_len,
            system.max_iterations == self.max_iterations,
            system.angle_change == self.angle_change,
            system.initiator@ == self.initiator@,
            system.rules@ == self.rules@,
    {
        LSystem {
            line_len: self.line_len,
            max_iterations: self.max_iterations,
            angle_change: self.angle_change,
            initiator: self.initiator,
            rules: self.rules,
        }
    }
}

/// The two passes agree on the forward moves: the drawing pass consumes
/// exactly one direction vector per heading the heading pass reports,
/// whatever directions, position, heading and angle are supplied.  A
/// caller may therefore size the direction list by the heading list.
pub proof fn lemma_moves_match_draws(
    rules: Seq<(char, String)>,
    max: nat,
    angle: int,
    s: Seq<char>,
    heading: int,
    pos: (int, int),
    depth: nat,
    dirs: Seq<(int, int)>,
)
    ensures
        head_trace(rules, max, angle, s, heading, depth).moves.len() == draw_trace(
            rules,
            max,
            s,
            pos,
            depth,
            dirs,
        ).used,
    decreases depth_left(max, depth), s.len(),
{
    if s.len() == 0 {
    } else if s[0] == 'F' {
        let d = dirs[0];
        let next = (pos.0 + d.0, pos.1 + d.1);
        if depth < max && rule_lookup(rules, 'F') is Some {
            let replacement = rule_lookup(rules, 'F')->0;
            let sub = draw_trace(rules, max, replacement, pos, depth + 1, dirs.skip(1));
            lemma_moves_match_draws(
                rules,
                max,
                angle,
                replacement,
                heading,
                pos,
                depth + 1,
                dirs.skip(1),
            );
            lemma_moves_match_draws(
                rules,
                max,
                angle,
                s.skip(1),
                heading,
                pos,
                depth,
                dirs.skip(1 + sub.used as int),
            );
        } else {
            lemma_moves_match_draws(rules, max, angle, s.skip(1), heading, next, depth, dirs.skip(1));
        }
    } else if s[0] == '+' {
        lemma_moves_match_draws(rules, max, angle, s.skip(1), heading + angle, pos, depth, dirs);
    } else if s[0] == '-' {
        lemma_moves_match_draws(rules, max, angle, s.skip(1), heading - angle, pos, depth, dirs);
    } else {
        lemma_moves_match_draws(rules, max, angle, s.skip(1), heading, pos, depth, dirs);
    }
}

/// The unbroken polyline from `pos` along the displacements `ds`: one
/// segment per displacement, each starting where the previous ended.
pub open spec fn chain_segs(pos: (int, int), ds: Seq<(int, int)>) -> Seq<((int, int), (int, int))>
    decreases ds.len(),
{
    if ds.len() == 0 {
        Seq::empty()
    } else {
        let next = (pos.0 + ds[0].0, pos.1 + ds[0].1);
        seq![(pos, next)] + chain_segs(next, ds.skip(1))
    }
}

/// Without expansion — no levels left, or no rule for `'F'` — every
/// `'F'` of `s` is exactly one terminal move: the drawing pass consumes
/// one direction per `'F'`, in order, and its segments chain into the
/// polyline from `pos` along those directions.  No recursion occurs.
pub proof fn lemma_no_expansion(
    rules: Seq<(char, String)>,
    max: nat,
    s: Seq<char>,
    pos: (int, int),
    depth: nat,
    dirs: Seq<(int, int)>,
)
    requires
        depth >= max || rule_lookup(rules, 'F') is None,
        count_f(s) <= dirs.len(),
    ensures
        draw_trace(rules, max, s, pos, depth, dirs).used == count_f(s),
        draw_trace(rules, max, s, pos, depth, dirs).segs == chain_segs(
            pos,
            dirs.take(count_f(s) as int),
        ),
    decreases s.len(),
{
    if s.len() == 0 {
        assert(dirs.take(0) =~= Seq::<(int, int)>::empty());
    } else if s[0] == 'F' {
        let d = dirs[0];
        let next = (pos.0 + d.0, pos.1 + d.1);
        lemma_no_expansion(rules, max, s.skip(1), next, depth, dirs.skip(1));
        let taken = dirs.take(count_f(s) as int);
        assert(taken[0] == dirs[0]);
        assert(taken.skip(1) =~= dirs.skip(1).take(count_f(s.skip(1)) as int));
    } else {
        lemma_no_expansion(rules, max, s.skip(1), pos, depth, dirs);
    }
}

/// With a rule for `'F'` in force and levels still open everywhere,
/// every forward symbol expands until the depth ceiling: the number of
/// terminal segments is the number of `'F'` symbols in `s` times
/// m^(levels left), where m is the number of `'F'` symbols in the
/// replacement string.
pub proof fn lemma_full_expansion_count(
    rules: Seq<(char, String)>,
    max: nat,
    s: Seq<char>,
    pos: (int, int),
    depth: nat,
    dirs: Seq<(int, int)>,
)
    requires
        rule_lookup(rules, 'F') is Some,
        depth <= max,
    ensures
        draw_trace(rules, max, s, pos, depth, dirs).segs.len() == count_f(s) as int * pow(
            count_f(rule_lookup(rules, 'F')->0) as int,
            (max - depth) as nat,
        ),
    decreases depth_left(max, depth), s.len(),
{
    reveal(pow);
    let replacement = rule_lookup(rules, 'F')->0;
    let m = count_f(replacement) as int;
    let e = (max - depth) as nat;
    let t = draw_trace(rules, max, s, pos, depth, dirs);
    if s.len() == 0 {
        assert(count_f(s) as int * pow(m, e) == 0) by (nonlinear_arith)
            requires
                count_f(s) == 0,
        ;
    } else if s[0] == 'F' {
        if depth < max {
            let sub = draw_trace(rules, max, replacement, pos, depth + 1, dirs.skip(1));
            let rest = draw_trace(rules, max, s.skip(1), pos, depth, dirs.skip(1 + sub.used as int));
            lemma_full_expansion_count(rules, max, replacement, pos, depth + 1, dirs.skip(1));
            lemma_full_expansion_count(
                rules,
                max,
                s.skip(1),
                pos,
                depth,
                dirs.skip(1 + sub.used as int),
            );
            assert(pow(m, e) == m * pow(m, (e - 1) as nat));
            assert(sub.segs.len() == pow(m, e));
            assert(rest.segs.len() == count_f(s.skip(1)) as int * pow(m, e));
            assert(count_f(s) as int * pow(m, e) == pow(m, e) + count_f(s.skip(1)) as int * pow(
                m,
                e,
            )) by (nonlinear_arith)
                requires
                    count_f(s) == 1 + count_f(s.skip(1)),
            ;
        } else {
            let d = dirs[0];
            let next = (pos.0 + d.0, pos.1 + d.1);
            lemma_full_expansion_count(rules, max, s.skip(1), next, depth, dirs.skip(1));
            assert(pow(m, 0) == 1);
            assert(count_f(s) as int * 1 == 1 + count_f(s.skip(1)) as int * 1) by (nonlinear_arith)
                requires
                    count_f(s) == 1 + count_f(s.skip(1)),
            ;
        }
    } else {
        lemma_full_expansion_count(rules, max, s.skip(1), pos, depth, dirs);
    }
}

/// Bounding-box soundness: both endpoints of every segment the drawing
/// pass emits lie, componentwise, within the box that results from
/// folding the recorded points over any starting box — in particular
/// within the box [`LSystem::draw`] leaves behind.
pub proof fn lemma_bbox_sound(
    b: Box2,
    rules: Seq<(char, String)>,
    max: nat,
    s: Seq<char>,
    pos: (int, int),
    depth: nat,
    dirs: Seq<(int, int)>,
)
    ensures
        ({
            let t = draw_trace(rules, max, s, pos, depth, dirs);
            forall|k: int|
                0 <= k < t.segs.len() ==> bb_contains(bb_fold(b, t.pts), #[trigger] t.segs[k].0)
                    && bb_contains(bb_fold(b, t.pts), t.segs[k].1)
        }),
    decreases depth_left(max, depth), s.len(),
{
    let t = draw_trace(rules, max, s, pos, depth, dirs);
    if s.len() == 0 {
    } else if s[0] == 'F' {
        let d = dirs[0];
        let next = (pos.0 + d.0, pos.1 + d.1);
        let q = seq![pos, next];
        let bq = bb_add(bb_add(b, pos), next);
        lemma_bb_fold_pair(b, pos, next);
        if depth < max && rule_lookup(rules, 'F') is Some {
            let replacement = rule_lookup(rules, 'F')->0;
            let sub = draw_trace(rules, max, replacement, pos, depth + 1, dirs.skip(1));
            let rest = draw_trace(rules, max, s.skip(1), pos, depth, dirs.skip(1 + sub.used as int));
            lemma_bbox_sound(bq, rules, max, replacement, pos, depth + 1, dirs.skip(1));
            let b2 = bb_fold(bq, sub.pts);
            lemma_bbox_sound(b2, rules, max, s.skip(1), pos, depth, dirs.skip(1 + sub.used as int));
            assert(t.pts =~= (q + sub.pts) + rest.pts);
            lemma_bb_fold_append(b, q, sub.pts);
            lemma_bb_fold_append(b, q + sub.pts, rest.pts);
            let whole = bb_fold(b, t.pts);
            lemma_bb_fold_covers(b2, rest.pts);
            assert forall|k: int|
                0 <= k < t.segs.len() implies bb_contains(whole, #[trigger] t.segs[k].0)
                && bb_contains(whole, t.segs[k].1) by {
                if k < sub.segs.len() {
                    assert(t.segs[k] == sub.segs[k]);
                    assert(bb_contains(b2, sub.segs[k].0));
                    lemma_covers_contains(whole, b2, sub.segs[k].0);
                    lemma_covers_contains(whole, b2, sub.segs[k].1);
                } else {
                    let j = k - sub.segs.len();
                    assert(t.segs[k] == rest.segs[j]);
                    assert(bb_contains(bb_fold(b2, rest.pts), rest.segs[j].0));
                    assert(bb_contains(bb_fold(b2, rest.pts), rest.segs[j].1));
                }
            }
        } else {
            let rest = draw_trace(rules, max, s.skip(1), next, depth, dirs.skip(1));
            lemma_bbox_sound(bq, rules, max, s.skip(1), next, depth, dirs.skip(1));
            assert(t.pts =~= q + rest.pts);
            lemma_bb_fold_append(b, q, rest.pts);
            let whole = bb_fold(b, t.pts);
            lemma_bb_fold_covers(bq, rest.pts);
            assert forall|k: int|
                0 <= k < t.segs.len() implies bb_contains(whole, #[trigger] t.segs[k].0)
                && bb_contains(whole, t.segs[k].1) by {
                if k == 0 {
                    lemma_covers_contains(whole, bq, pos);
                    lemma_covers_contains(whole, bq, next);
                } else {
                    assert(t.segs[k] == rest.segs[k - 1]);
                    assert(bb_contains(bb_fold(bq, rest.pts), rest.segs[k - 1].0));
                    assert(bb_contains(bb_fold(bq, rest.pts), rest.segs[k - 1].1));
                }
            }
        }
    } else {
        lemma_bbox_sound(b, rules, max, s.skip(1), pos, depth, dirs);
        let t2 = draw_trace(rules, max, s.skip(1), pos, depth, dirs);
        assert(t == t2);
        assert forall|k: int|
            0 <= k < t.segs.len() implies bb_contains(bb_fold(b, t.pts), #[trigger] t.segs[k].0)
            && bb_contains(bb_fold(b, t.pts), t.segs[k].1) by {
            assert(bb_contains(bb_fold(b, t2.pts), t2.segs[k].0));
            assert(bb_contains(bb_fold(b, t2.pts), t2.segs[k].1));
        }
    }
}

/// `n` turn-left symbols followed by one forward move.
pub open spec fn turns_then_move(n: nat) -> Seq<char> {
    Seq::new(n + 1, |k: int| if k < n { '+' } else { 'F' })
}

/// Heading accumulation: after `n` consecutive `'+'` symbols, the
/// forward move is taken at the initial heading plus `n` times the
/// angle increment — exactly, in the caller's angle unit.
pub proof fn lemma_heading_accumulation(
    rules: Seq<(char, String)>,
    max: nat,
    angle: int,
    n: nat,
    heading: int,
    depth: nat,
)
    ensures
        ({
            let t = head_trace(rules, max, angle, turns_then_move(n), heading, depth);
            t.moves.len() >= 1 && t.moves[0] == heading + n * angle
        }),
    decreases n,
{
    let s = turns_then_move(n);
    if n == 0 {
        assert(s[0] == 'F');
    } else {
        assert(s[0] == '+');
        assert(s.skip(1) =~= turns_then_move((n - 1) as nat));
        lemma_heading_accumulation(rules, max, angle, (n - 1) as nat, heading + angle, depth);
        assert((heading + angle) + (n - 1) * angle == heading + n * angle) by (nonlinear_arith);
    }
}

} // verus!
