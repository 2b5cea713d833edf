use vstd::prelude::*;
use vstd::string::*;
use crate::cell::wall_glyph;
use crate::coordinate::Coordinates;
use crate::coordinate_set::CoordinateSet;
use crate::maze::Maze;

verus! {

/// The lower rim of a drawing: three wall glyphs for each column.
pub open spec fn border(width: nat) -> Seq<char> {
    Seq::new(3 * width, |i: int| wall_glyph())
}

impl Maze {
    /// The glyphs of one text row of one grid row, for the first `upto`
    /// columns: three glyphs for each cell, the cells from left to right.
    /// Text row 0 shows the upper edge of the cells, text row 1 their bodies,
    /// where the cells in `marked` show the mark.
    pub open spec fn line_glyphs(
        &self,
        marked: Set<Coordinates>,
        row: usize,
        line: usize,
        upto: nat,
    ) -> Seq<char>
        decreases upto,
    {
        if upto == 0 {
            Seq::<char>::empty()
        } else {
            let place = Coordinates { row, col: (upto - 1) as usize };
            self.line_glyphs(marked, row, line, (upto - 1) as nat) + self.cell(place).row_glyphs(
                line,
                Some(marked.contains(place)),
            )
        }
    }

    /// One whole text row with the line feed that ends it.
    pub open spec fn text_line(&self, marked: Set<Coordinates>, row: usize, line: usize) -> Seq<
        char,
    > {
        self.line_glyphs(marked, row, line, self.cols() as nat).push('\n')
    }

    /// The drawing of the first `upto` grid rows: two text rows for each.
    pub open spec fn rows_glyphs(&self, marked: Set<Coordinates>, upto: nat) -> Seq<char>
        decreases upto,
    {
        if upto == 0 {
            Seq::<char>::empty()
        } else {
            let row = (upto - 1) as usize;
            self.rows_glyphs(marked, (upto - 1) as nat) + self.text_line(marked, row, 0)
                + self.text_line(marked, row, 1)
        }
    }

    /// The drawing of the grid: for each grid row its two text rows, then the
    /// lower rim, which no line feed follows.
    pub open spec fn rendering(&self, marked: Set<Coordinates>) -> Seq<char> {
        self.rows_glyphs(marked, self.rows() as nat) + border(self.cols() as nat)
    }

    /// A text row of `upto` columns has three glyphs for each.
    pub proof fn lemma_line_length(&self, marked: Set<Coordinates>, row: usize, line: usize, upto: nat)
        ensures
            self.line_glyphs(marked, row, line, upto).len() == 3 * upto,
        decreases upto,
    {
        if upto > 0 {
            self.lemma_line_length(marked, row, line, (upto - 1) as nat);
        }
    }

    /// The drawing of `upto` grid rows has two text rows for each, with a
    /// line feed at the end of each text row.
    pub proof fn lemma_rows_length(&self, marked: Set<Coordinates>, upto: nat)
        ensures
            self.rows_glyphs(marked, upto).len() == upto * (2 * (3 * self.cols() + 1)),
        decreases upto,
    {
        let unit = 2 * (3 * self.cols() + 1);
        if upto > 0 {
            let row = (upto - 1) as usize;
            self.lemma_rows_length(marked, (upto - 1) as nat);
            self.lemma_line_length(marked, row, 0, self.cols() as nat);
            self.lemma_line_length(marked, row, 1, self.cols() as nat);
            assert(upto * unit == (upto - 1) * unit + unit) by (nonlinear_arith);
        } else {
            assert(upto * unit == 0) by (nonlinear_arith)
                requires
                    upto == 0,
            ;
        }
    }

    /// The drawing of a grid of `w` by `h` cells has `2 * h` text rows of
    /// `3 * w` glyphs and a line feed, and a lower rim of `3 * w` glyphs.
    pub proof fn lemma_rendering_length(&self, marked: Set<Coordinates>)
        ensures
            self.rendering(marked).len() == self.rows() * (2 * (3 * self.cols() + 1)) + 3
                * self.cols(),
    {
        self.lemma_rows_length(marked, self.rows() as nat);
    }

    /// In a text row the three glyphs of each cell stand side by side: the
    /// glyph `part` of the cell at `place` is the glyph `3 * place.col + part`
    /// of the text rows of its grid row.
    pub proof fn lemma_line_glyph(
        &self,
        marked: Set<Coordinates>,
        place: Coordinates,
        line: usize,
        upto: nat,
        part: int,
    )
        requires
            place.col < upto,
            0 <= part < 3,
        ensures
            self.line_glyphs(marked, place.row, line, upto)[3 * place.col + part] == self.cell(
                place,
            ).row_glyphs(line, Some(marked.contains(place)))[part],
        decreases upto,
    {
        self.lemma_line_length(marked, place.row, line, (upto - 1) as nat);
        if place.col < upto - 1 {
            self.lemma_line_glyph(marked, place, line, (upto - 1) as nat, part);
        }
    }

    /// In the drawing of some grid rows, the glyph `column` of text row `line`
    /// of grid row `row` is the glyph `(2 * row + line) * (3 * w + 1) + column`,
    /// where `w` is the width of the grid.
    pub proof fn lemma_rows_glyph(
        &self,
        marked: Set<Coordinates>,
        upto: nat,
        row: usize,
        line: usize,
        column: int,
    )
        requires
            row < upto,
            line < 2,
            0 <= column <= 3 * self.cols(),
        ensures
            self.rows_glyphs(marked, upto)[(2 * row + line) * (3 * self.cols() + 1) + column]
                == self.text_line(marked, row, line)[column],
        decreases upto,
    {
        let unit = 3 * self.cols() + 1;
        let last = (upto - 1) as usize;
        self.lemma_rows_length(marked, (upto - 1) as nat);
        self.lemma_line_length(marked, last, 0, self.cols() as nat);
        self.lemma_line_length(marked, last, 1, self.cols() as nat);
        self.lemma_line_length(marked, row, line, self.cols() as nat);
        assert((upto - 1) * (2 * unit) == (2 * (upto - 1)) * unit) by (nonlinear_arith);
        if row < upto - 1 {
            self.lemma_rows_glyph(marked, (upto - 1) as nat, row, line, column);
            assert((2 * row + line) * unit + column < (2 * (upto - 1)) * unit) by (nonlinear_arith)
                requires
                    2 * row + line + 1 <= 2 * (upto - 1),
                    0 <= column < unit,
            ;
        } else {
            assert((2 * row + line) * unit == (2 * (upto - 1)) * unit + line * unit)
                by (nonlinear_arith)
                requires
                    row == upto - 1,
            ;
            if line == 0 {
                assert(line * unit == 0) by (nonlinear_arith)
                    requires
                        line == 0,
                ;
            } else {
                assert(line * unit == unit) by (nonlinear_arith)
                    requires
                        line == 1,
                ;
            }
        }
    }

    /// Where the glyphs of a cell stand in the drawing: glyph `part` of the
    /// cell at `place`, on its upper edge (`line` 0) or its body (`line` 1),
    /// is the glyph `(2 * place.row + line) * (3 * w + 1) + 3 * place.col + part`
    /// of the drawing, where `w` is the width of the grid.
    pub proof fn lemma_cell_glyph(
        &self,
        marked: Set<Coordinates>,
        place: Coordinates,
        line: usize,
        part: int,
    )
        requires
            self.in_bounds(place),
            line < 2,
            0 <= part < 3,
        ensures
            self.rendering(marked)[(2 * place.row + line) * (3 * self.cols() + 1) + 3 * place.col
                + part] == self.cell(place).row_glyphs(line, Some(marked.contains(place)))[part],
    {
        let unit = 3 * self.cols() + 1;
        let row = place.row;
        let col = place.col;
        self.lemma_rows_glyph(marked, self.rows() as nat, row, line, 3 * col + part);
        self.lemma_line_glyph(marked, place, line, self.cols() as nat, part);
        self.lemma_line_length(marked, row, line, self.cols() as nat);
        self.lemma_rows_length(marked, self.rows() as nat);
        assert((2 * row + line) * unit + 3 * col + part < self.rows() * (2 * unit))
            by (nonlinear_arith)
            requires
                2 * row + line + 1 <= 2 * self.rows(),
                0 <= 3 * col + part < unit,
        ;
    }

    /// Each text row of the drawing ends in a line feed, and the lower rim
    /// below the last of them is made of wall glyphs.
    pub proof fn lemma_line_ends(&self, marked: Set<Coordinates>, row: usize, line: usize, rim: int)
        requires
            row < self.rows(),
            line < 2,
            0 <= rim < 3 * self.cols(),
        ensures
            self.rendering(marked)[(2 * row + line) * (3 * self.cols() + 1) + 3 * self.cols()]
                == '\n',
            self.rendering(marked)[(2 * self.rows()) * (3 * self.cols() + 1) + rim]
                == wall_glyph(),
    {
        let unit = 3 * self.cols() + 1;
        self.lemma_rows_glyph(marked, self.rows() as nat, row, line, 3 * self.cols());
        self.lemma_line_length(marked, row, line, self.cols() as nat);
        self.lemma_rows_length(marked, self.rows() as nat);
        assert((2 * row + line) * unit + 3 * self.cols() < self.rows() * (2 * unit))
            by (nonlinear_arith)
            requires
                2 * row + line + 1 <= 2 * self.rows(),
                0 <= 3 * self.cols() < unit,
        ;
        assert((2 * self.rows()) * unit == self.rows() * (2 * unit)) by (nonlinear_arith);
    }

    fn render(&self, marked: Option<&CoordinateSet>) -> (text: String)
        requires
            self.wf(),
        ensures
            text@ == self.rendering(
                match marked {
                    Some(set) => set@,
                    None => Set::<Coordinates>::empty(),
                },
            ),
            text@.len() == self.rows() * (2 * (3 * self.cols() + 1)) + 3 * self.cols(),
    {
        let ghost marks = match marked {
            Some(set) => set@,
            None => Set::<Coordinates>::empty(),
        };
        proof {
            self.lemma_rendering_length(marks);
        }
        let (width, height) = self.dimensions();
        let mut ret = String::new();
        let mut row: usize = 0;
        while row < height
            invariant
                self.wf(),
                width == self.cols(),
                height == self.rows(),
                row <= height,
                marks == match marked {
                    Some(set) => set@,
                    None => Set::<Coordinates>::empty(),
                },
                ret@ == self.rows_glyphs(marks, row as nat),
            decreases height - row,
        {
            let ghost above = ret@;
            let mut node_row: usize = 0;
            while node_row < 2
                invariant
                    self.wf(),
                    width == self.cols(),
                    height == self.rows(),
                    row < height,
                    node_row <= 2,
                    marks == match marked {
                        Some(set) => set@,
                        None => Set::<Coordinates>::empty(),
                    },
                    ret@ == above + if node_row == 0 {
                        Seq::<char>::empty()
                    } else if node_row == 1 {
                        self.text_line(marks, row, 0)
                    } else {
                        self.text_line(marks, row, 0) + self.text_line(marks, row, 1)
                    },
                decreases 2 - node_row,
            {
                let ghost left = ret@;
                let mut col: usize = 0;
                while col < width
                    invariant
                        self.wf(),
                        width == self.cols(),
                        height == self.rows(),
                        row < height,
                        col <= width,
                        marks == match marked {
                            Some(set) => set@,
                            None => Set::<Coordinates>::empty(),
                        },
                        ret@ == left + self.line_glyphs(marks, row, node_row, col as nat),
                    decreases width - col,
                {
                    let place: Coordinates = (row, col).into();
                    let cell = self.get(place);
                    let mark = match marked {
                        Some(set) => set.contains(&place),
                        None => false,
                    };
                    let part = cell.unwrap().row_string(node_row, Some(mark));
                    ret.append(part.as_str());
                    proof {
                        assert(ret@ =~= left + self.line_glyphs(
                            marks,
                            row,
                            node_row,
                            (col + 1) as nat,
                        ));
                    }
                    col += 1;
                }
                proof {
                    reveal_strlit("\n");
                }
                ret.append("\n");
                proof {
                    assert("\n"@ =~= seq!['\n']);
                    assert(ret@ =~= left + self.text_line(marks, row, node_row));
                    assert(ret@ =~= above + if node_row + 1 == 1 {
                        self.text_line(marks, row, 0)
                    } else {
                        self.text_line(marks, row, 0) + self.text_line(marks, row, 1)
                    });
                }
                node_row += 1;
            }
            proof {
                assert(ret@ =~= self.rows_glyphs(marks, (row + 1) as nat));
            }
            row += 1;
        }
        let ghost body = ret@;
        let mut col: usize = 0;
        while col < width
            invariant
                col <= width,
                ret@ == body + border(col as nat),
            decreases width - col,
        {
            proof {
                reveal_strlit("\u{2588}\u{2588}\u{2588}");
            }
            ret.append("\u{2588}\u{2588}\u{2588}");
            proof {
                assert(ret@ =~= body + border((col + 1) as nat));
            }
            col += 1;
        }
        ret
    }

    /// The drawing of the grid with the cells in `visited` marked.
    pub fn spread(&self, visited: CoordinateSet) -> (text: String)
        requires
            self.wf(),
        ensures
            text@ == self.rendering(visited@),
            text@.len() == self.rows() * (2 * (3 * self.cols() + 1)) + 3 * self.cols(),
    {
        self.render(Some(&visited))
    }

    /// The drawing of the grid with no cell marked.
    pub fn string(&self) -> (text: String)
        requires
            self.wf(),
        ensures
            text@ == self.rendering(Set::<Coordinates>::empty()),
            text@.len() == self.rows() * (2 * (3 * self.cols() + 1)) + 3 * self.cols(),
    {
        self.render(None)
    }
}

} // verus!
