use vstd::prelude::*;
use crate::ising::{
    Lattice, all_positive, lemma_positive_product, prefix_products_fit, product, products_fit,
    weight_slots_upto,
};
use crate::text::{
    find_header, has_prefix, header_pos, lemma_header_pos, min, parse_usize, parsed_usize,
    split_words, views, words,
};

verus! {

/// Why the text of an Ising model is rejected.
#[derive(Debug, Clone, Copy, PartialEq, Eq)]
pub enum IsingFileError {
    /// No `$temp` header.
    MissingTemp,
    /// The line after `$temp` is blank.
    BlankTemp,
    /// No line after `$temp`, or no `$dim_sizes` header with a line after it.
    MissingDimSizes,
    /// The line after `$dim_sizes` is blank.
    MissingDim,
    /// The dimension is not an unsigned integer.
    BadDim,
    /// The dimension is zero.
    ZeroDim,
    /// Fewer side lengths than the dimension.
    SizesMismatch,
    /// A side length is not an unsigned integer.
    BadSize,
    /// A running product of the side lengths does not fit in a `usize`.
    SitesOverflow,
    /// No `$edge_weights_start` header.
    MissingEdgeWeights,
    /// The weight list, `2 * dim` entries per site, is too long for a `usize` length.
    WeightsOverflow,
    /// The text ends before every bond has its weight.
    InsufficientWeights,
    /// A weight line is blank.
    BlankWeight,
    /// No `$mu` header with a line after it.
    MissingMu,
    /// The line after `$mu` is blank.
    BlankMu,
    /// No `$external_magnetic_field` header.
    MissingField,
    /// The text ends before every site has its field.
    NotEnoughField,
    /// A field line is blank.
    BlankField,
}

/// An Ising model as its text gives it; numbers with a fractional part are
/// kept as the words that spell them.
#[derive(Debug)]
pub struct IsingFile {
    pub temp: Vec<char>,
    pub lattice: Lattice,
    /// For each weight, the two positions of its bond in the weight list.
    pub weight_slots: Vec<(usize, usize)>,
    pub weights: Vec<Vec<char>>,
    pub mu: Vec<char>,
    pub magnetic_field: Vec<Vec<char>>,
}

/// The contents of `IsingFile`.
pub struct IsingFileView {
    pub temp: Seq<char>,
    pub dim: nat,
    pub sizes: Seq<usize>,
    pub weight_slots: Seq<(usize, usize)>,
    pub weights: Seq<Seq<char>>,
    pub mu: Seq<char>,
    pub magnetic_field: Seq<Seq<char>>,
}

impl View for IsingFile {
    type V = IsingFileView;

    open spec fn view(&self) -> IsingFileView {
        IsingFileView {
            temp: self.temp@,
            dim: self.lattice.spec_dim(),
            sizes: self.lattice.spec_sizes(),
            weight_slots: self.weight_slots@,
            weights: views(self.weights@),
            mu: self.mu@,
            magnetic_field: views(self.magnetic_field@),
        }
    }
}

/// Among the words `d`, the first side `i` at or after `i0` and below `dim`
/// whose length word `d[i + 1]` is missing or no unsigned integer; `dim` if
/// there is none.
pub open spec fn first_bad_size(d: Seq<Seq<char>>, dim: int, i: int) -> int
    decreases dim - i,
{
    if i >= dim {
        dim
    } else if i + 1 >= d.len() || parsed_usize(d[i + 1]) is None {
        i
    } else {
        first_bad_size(d, dim, i + 1)
    }
}

/// Among lines `from + t` for `t` in `t0..m`, the first that is blank; `m` if
/// there is none.
pub open spec fn first_blank(lines: Seq<Vec<char>>, from: int, t: int, m: int) -> int
    decreases m - t,
{
    if t >= m {
        m
    } else if words(lines[from + t]@).len() == 0 {
        t
    } else {
        first_blank(lines, from, t + 1, m)
    }
}

/// How reading one word from each of several lines can fail.
#[derive(Debug, Clone, Copy, PartialEq, Eq)]
pub enum LineShortage {
    /// A line is blank.
    Blank,
    /// The text ends first.
    Missing,
}

/// The first word of each of the `count` lines from `from`, or how that fails:
/// at the first blank line, or at the end of the text.
pub open spec fn first_words_spec(lines: Seq<Vec<char>>, from: int, count: int) -> Result<
    Seq<Seq<char>>,
    LineShortage,
> {
    let m = min(count, lines.len() - from);
    if first_blank(lines, from, 0, m) < m {
        Err(LineShortage::Blank)
    } else if m < count {
        Err(LineShortage::Missing)
    } else {
        Ok(Seq::new(count as nat, |t: int| words(lines[from + t]@)[0]))
    }
}

/// The Ising model that `lines` describe, or the first reason they describe none.
pub open spec fn ising_file_spec(lines: Seq<Vec<char>>) -> Result<IsingFileView, IsingFileError> {
    let len = lines.len() as int;
    let p = header_pos(lines, 0, "$temp"@);
    if p >= len {
        Err(IsingFileError::MissingTemp)
    } else if p + 1 >= len {
        Err(IsingFileError::MissingDimSizes)
    } else if words(lines[p + 1]@).len() == 0 {
        Err(IsingFileError::BlankTemp)
    } else {
        let temp = words(lines[p + 1]@)[0];
        let q = header_pos(lines, p + 2, "$dim_sizes"@);
        if q + 1 >= len {
            Err(IsingFileError::MissingDimSizes)
        } else {
            let d = words(lines[q + 1]@);
            if d.len() == 0 {
                Err(IsingFileError::MissingDim)
            } else if parsed_usize(d[0]) is None {
                Err(IsingFileError::BadDim)
            } else if parsed_usize(d[0]).unwrap() == 0 {
                Err(IsingFileError::ZeroDim)
            } else {
                ising_sizes_spec(lines, q + 2, temp, d, parsed_usize(d[0]).unwrap() as int)
            }
        }
    }
}

/// The rest of the Ising model once its dimension `dim` is read from the
/// words `d`, with reading going on at line `from`.
pub open spec fn ising_sizes_spec(
    lines: Seq<Vec<char>>,
    from: int,
    temp: Seq<char>,
    d: Seq<Seq<char>>,
    dim: int,
) -> Result<IsingFileView, IsingFileError> {
    let len = lines.len() as int;
    let bad = first_bad_size(d, dim, 0);
    if bad < dim {
        if bad + 1 >= d.len() {
            Err(IsingFileError::SizesMismatch)
        } else {
            Err(IsingFileError::BadSize)
        }
    } else {
        let sizes = Seq::new(dim as nat, |i: int| parsed_usize(d[i + 1]).unwrap());
        if !prefix_products_fit(sizes) {
            Err(IsingFileError::SitesOverflow)
        } else {
            let n = product(sizes);
            let r = header_pos(lines, from, "$edge_weights_start"@);
            if r >= len {
                Err(IsingFileError::MissingEdgeWeights)
            } else if 2 * dim > usize::MAX || 2 * dim * n > usize::MAX {
                Err(IsingFileError::WeightsOverflow)
            } else {
                let slots = weight_slots_upto(sizes, dim, n);
                let c = slots.len() as int;
                match first_words_spec(lines, r + 1, c) {
                    Err(LineShortage::Blank) => Err(IsingFileError::BlankWeight),
                    Err(LineShortage::Missing) => Err(IsingFileError::InsufficientWeights),
                    Ok(weights) => {
                        let m = header_pos(lines, r + 1 + c, "$mu"@);
                        if m + 1 >= len {
                            Err(IsingFileError::MissingMu)
                        } else if words(lines[m + 1]@).len() == 0 {
                            Err(IsingFileError::BlankMu)
                        } else {
                            let f = header_pos(lines, m + 2, "$external_magnetic_field"@);
                            if f >= len {
                                Err(IsingFileError::MissingField)
                            } else {
                                match first_words_spec(lines, f + 1, n) {
                                    Err(LineShortage::Blank) => Err(IsingFileError::BlankField),
                                    Err(LineShortage::Missing) => Err(
                                        IsingFileError::NotEnoughField,
                                    ),
                                    Ok(field) => Ok(
                                        IsingFileView {
                                            temp,
                                            dim: dim as nat,
                                            sizes,
                                            weight_slots: slots,
                                            weights,
                                            mu: words(lines[m + 1]@)[0],
                                            magnetic_field: field,
                                        },
                                    ),
                                }
                            }
                        }
                    },
                }
            }
        }
    }
}

/// The contents of a parse result.
pub open spec fn ising_result_view(r: Result<IsingFile, IsingFileError>) -> Result<
    IsingFileView,
    IsingFileError,
> {
    match r {
        Ok(f) => Ok(f@),
        Err(e) => Err(e),
    }
}

/// The contents of a result of `read_first_words`.
pub open spec fn first_words_view(r: Result<Vec<Vec<char>>, LineShortage>) -> Result<
    Seq<Seq<char>>,
    LineShortage,
> {
    match r {
        Ok(v) => Ok(views(v@)),
        Err(e) => Err(e),
    }
}

/// The first word of each of the `count` lines from `from`.
#[verifier::loop_isolation(false)]
pub fn read_first_words(lines: &Vec<Vec<char>>, from: usize, count: usize) -> (r: Result<
    Vec<Vec<char>>,
    LineShortage,
>)
    requires
        from <= lines@.len(),
    ensures
        first_words_view(r) == first_words_spec(lines@, from as int, count as int),
{
    let avail = lines.len() - from;
    let m = if count < avail {
        count
    } else {
        avail
    };
    let mut out: Vec<Vec<char>> = Vec::new();
    let mut t: usize = 0;
    while t < m
        invariant
            t <= m,
            first_blank(lines@, from as int, 0, m as int) == first_blank(
                lines@,
                from as int,
                t as int,
                m as int,
            ),
            views(out@) == Seq::new(t as nat, |k: int| words(lines@[from + k]@)[0]),
        decreases m - t,
    {
        let w = split_words(&lines[from + t]);
        if w.len() == 0 {
            return Err(LineShortage::Blank);
        }
        let ghost before = views(out@);
        let first = w[0].clone();
        proof {
            assert(views(w@)[0] == w@[0]@);
        }
        out.push(first);
        proof {
            assert(views(out@) =~= before.push(first@));
            assert(before.push(first@) =~= Seq::new(
                (t + 1) as nat,
                |k: int| words(lines@[from + k]@)[0],
            ));
        }
        t = t + 1;
    }
    if m < count {
        return Err(LineShortage::Missing);
    }
    Ok(out)
}

/// The Ising model that `lines` describe: the temperature after `$temp`, the
/// dimension and side lengths after `$dim_sizes`, one weight per bond after
/// `$edge_weights_start`, the magnetic moment after `$mu` and one field
/// value per site after `$external_magnetic_field`; or the first reason they
/// describe none.
#[verifier::loop_isolation(false)]
pub fn parse_ising_file(lines: &Vec<Vec<char>>) -> (r: Result<IsingFile, IsingFileError>)
    ensures
        ising_result_view(r) == ising_file_spec(lines@),
        r matches Ok(f) ==> f.lattice.wf(),
{
    let len = lines.len();
    let p = find_header(lines, 0, "$temp");
    if p >= len {
        return Err(IsingFileError::MissingTemp);
    }
    if p + 1 >= len {
        return Err(IsingFileError::MissingDimSizes);
    }
    let tw = split_words(&lines[p + 1]);
    if tw.len() == 0 {
        return Err(IsingFileError::BlankTemp);
    }
    let temp = tw[0].clone();
    proof {
        assert(views(tw@)[0] == tw@[0]@);
    }
    let q = find_header(lines, p + 2, "$dim_sizes");
    if q >= len || q + 1 >= len {
        return Err(IsingFileError::MissingDimSizes);
    }
    let d = split_words(&lines[q + 1]);
    let ghost dv = views(d@);
    if d.len() == 0 {
        return Err(IsingFileError::MissingDim);
    }
    proof {
        assert(dv[0] == d@[0]@);
    }
    let dim = match parse_usize(&d[0]) {
        Some(v) => v,
        None => {
            return Err(IsingFileError::BadDim);
        },
    };
    if dim == 0 {
        return Err(IsingFileError::ZeroDim);
    }
    let mut sizes: Vec<usize> = Vec::new();
    let mut i: usize = 0;
    while i < dim
        invariant
            i <= dim,
            dv == views(d@),
            first_bad_size(dv, dim as int, 0) == first_bad_size(dv, dim as int, i as int),
            sizes@ == Seq::new(i as nat, |j: int| parsed_usize(dv[j + 1]).unwrap()),
        decreases dim - i,
    {
        if i + 1 >= d.len() {
            return Err(IsingFileError::SizesMismatch);
        }
        proof {
            assert(dv[i + 1] == d@[i + 1]@);
        }
        let size = match parse_usize(&d[i + 1]) {
            Some(v) => v,
            None => {
                return Err(IsingFileError::BadSize);
            },
        };
        sizes.push(size);
        proof {
            assert(sizes@ =~= Seq::new((i + 1) as nat, |j: int| parsed_usize(dv[j + 1]).unwrap()));
        }
        i = i + 1;
    }
    if !products_fit(&sizes) {
        return Err(IsingFileError::SitesOverflow);
    }
    let lattice = Lattice::new(dim, sizes);
    let n = lattice.n_points();
    let r = find_header(lines, q + 2, "$edge_weights_start");
    if r >= len {
        return Err(IsingFileError::MissingEdgeWeights);
    }
    if dim > usize::MAX / 2 {
        return Err(IsingFileError::WeightsOverflow);
    }
    match (2 * dim).checked_mul(n) {
        None => {
            return Err(IsingFileError::WeightsOverflow);
        },
        Some(_) => {},
    }
    let weight_slots = if n == 0 {
        Vec::new()
    } else {
        proof {
            lemma_positive_product(lattice.spec_sizes());
        }
        lattice.weight_slots()
    };
    proof {
        assert(weight_slots@ == weight_slots_upto(lattice.spec_sizes(), dim as int, n as int));
    }
    let c = weight_slots.len();
    let weights = match read_first_words(lines, r + 1, c) {
        Ok(v) => v,
        Err(LineShortage::Blank) => {
            return Err(IsingFileError::BlankWeight);
        },
        Err(LineShortage::Missing) => {
            return Err(IsingFileError::InsufficientWeights);
        },
    };
    let m = find_header(lines, r + 1 + c, "$mu");
    if m >= len || m + 1 >= len {
        return Err(IsingFileError::MissingMu);
    }
    let mw = split_words(&lines[m + 1]);
    if mw.len() == 0 {
        return Err(IsingFileError::BlankMu);
    }
    let mu = mw[0].clone();
    proof {
        assert(views(mw@)[0] == mw@[0]@);
    }
    let f = find_header(lines, m + 2, "$external_magnetic_field");
    if f >= len {
        return Err(IsingFileError::MissingField);
    }
    let magnetic_field = match read_first_words(lines, f + 1, n) {
        Ok(v) => v,
        Err(LineShortage::Blank) => {
            return Err(IsingFileError::BlankField);
        },
        Err(LineShortage::Missing) => {
            return Err(IsingFileError::NotEnoughField);
        },
    };
    Ok(IsingFile { temp, lattice, weight_slots, weights, mu, magnetic_field })
}

/// The line after the header at `q` begins with the dimension of `f`, then
/// lists its sides in order: side `i` is the `(i + 1)`-th word.
pub open spec fn sizes_read_from(lines: Seq<Vec<char>>, q: int, f: IsingFileView) -> bool {
    let d = words(lines[q + 1]@);
    &&& 0 <= q
    &&& q + 1 < lines.len()
    &&& has_prefix(lines[q]@, "$dim_sizes"@)
    &&& d.len() > f.dim
    &&& parsed_usize(d[0]) == Some(f.dim as usize)
    &&& f.sizes.len() == f.dim
    &&& forall|i: int| 0 <= i < f.dim ==> parsed_usize(d[i + 1]) == Some(#[trigger] f.sizes[i])
}

/// The `count` lines after the header at `r`, which begins with `prefix`,
/// exist and give, by their first words, the entries of `values` in order.
pub open spec fn first_words_from(
    lines: Seq<Vec<char>>,
    r: int,
    prefix: Seq<char>,
    values: Seq<Seq<char>>,
) -> bool {
    &&& 0 <= r
    &&& r + 1 + values.len() <= lines.len()
    &&& has_prefix(lines[r]@, prefix)
    &&& forall|t: int| 0 <= t < values.len() ==> first_word_is(lines[r + 1 + t]@, #[trigger] values[t])
}

/// `line` is not blank and its first word is `w`.
pub open spec fn first_word_is(line: Seq<char>, w: Seq<char>) -> bool {
    words(line).len() > 0 && w == words(line)[0]
}

proof fn lemma_first_bad_size(d: Seq<Seq<char>>, dim: int, i: int, j: int)
    requires
        0 <= i <= j < dim,
        first_bad_size(d, dim, i) >= dim,
    ensures
        j + 1 < d.len(),
        parsed_usize(d[j + 1]) is Some,
    decreases j - i,
{
    if i < j {
        lemma_first_bad_size(d, dim, i + 1, j);
    }
}

proof fn lemma_first_words(lines: Seq<Vec<char>>, from: int, count: int, values: Seq<Seq<char>>)
    requires
        0 <= from,
        0 <= count,
        first_words_spec(lines, from, count) == Ok::<_, LineShortage>(values),
    ensures
        values.len() == count,
        from + count <= lines.len(),
        forall|t: int|
            0 <= t < count ==> words(lines[from + t]@).len() > 0 && #[trigger] values[t] == words(
                lines[from + t]@,
            )[0],
{
    let m = min(count, lines.len() - from);
    assert forall|t: int| 0 <= t < count implies #[trigger] words(lines[from + t]@).len() > 0 by {
        lemma_first_blank(lines, from, 0, m, t);
    }
}

proof fn lemma_first_words_from(
    lines: Seq<Vec<char>>,
    r: int,
    prefix: Seq<char>,
    count: int,
    values: Seq<Seq<char>>,
)
    requires
        0 <= r < lines.len(),
        0 <= count,
        has_prefix(lines[r]@, prefix),
        first_words_spec(lines, r + 1, count) == Ok::<_, LineShortage>(values),
    ensures
        values.len() == count,
        first_words_from(lines, r, prefix, values),
{
    lemma_first_words(lines, r + 1, count, values);
    assert forall|t: int| 0 <= t < values.len() implies first_word_is(
        lines[r + 1 + t]@,
        #[trigger] values[t],
    ) by {
        assert(values[t] == words(lines[(r + 1) + t]@)[0]);
        assert(words(lines[(r + 1) + t]@).len() > 0);
    }
}

proof fn lemma_first_blank(lines: Seq<Vec<char>>, from: int, t: int, m: int, k: int)
    requires
        0 <= t <= k < m,
        first_blank(lines, from, t, m) >= m,
    ensures
        words(lines[from + k]@).len() > 0,
    decreases k - t,
{
    if t < k {
        lemma_first_blank(lines, from, t + 1, m, k);
    }
}

/// The positions of the headers of an Ising model that reads without error,
/// in the order the text gives them: `$temp`, `$dim_sizes`,
/// `$edge_weights_start`, `$mu` and `$external_magnetic_field`.
proof fn lemma_ising_headers(lines: Seq<Vec<char>>, f: IsingFileView) -> (pos: (int, int, int, int, int))
    requires
        ising_file_spec(lines) == Ok::<_, IsingFileError>(f),
    ensures
        0 <= pos.0 && pos.0 + 1 < lines.len() && has_prefix(lines[pos.0]@, "$temp"@)
            && words(lines[pos.0 + 1]@).len() > 0 && f.temp == words(lines[pos.0 + 1]@)[0],
        sizes_read_from(lines, pos.1, f),
        prefix_products_fit(f.sizes),
        f.weight_slots == weight_slots_upto(f.sizes, f.dim as int, product(f.sizes)),
        first_words_from(lines, pos.2, "$edge_weights_start"@, f.weights),
        f.weights.len() == f.weight_slots.len(),
        0 <= pos.3 && pos.3 + 1 < lines.len() && has_prefix(lines[pos.3]@, "$mu"@)
            && words(lines[pos.3 + 1]@).len() > 0 && f.mu == words(lines[pos.3 + 1]@)[0],
        first_words_from(lines, pos.4, "$external_magnetic_field"@, f.magnetic_field),
        f.magnetic_field.len() == product(f.sizes),
{
    let len = lines.len() as int;
    let p = header_pos(lines, 0, "$temp"@);
    lemma_header_pos(lines, 0, "$temp"@);
    let temp = words(lines[p + 1]@)[0];
    let q = header_pos(lines, p + 2, "$dim_sizes"@);
    lemma_header_pos(lines, p + 2, "$dim_sizes"@);
    let d = words(lines[q + 1]@);
    let dim = parsed_usize(d[0]).unwrap() as int;
    assert(f.dim == dim);
    let sizes = Seq::new(dim as nat, |i: int| parsed_usize(d[i + 1]).unwrap());
    assert(f.sizes == sizes);
    assert forall|i: int| 0 <= i < dim implies parsed_usize(d[i + 1]) == Some(#[trigger] f.sizes[i]) by {
        lemma_first_bad_size(d, dim, 0, i);
    }
    lemma_first_bad_size(d, dim, 0, dim - 1);
    assert(sizes_read_from(lines, q, f));
    let n = product(sizes);
    lemma_product_nonneg_here(sizes);
    let r = header_pos(lines, q + 2, "$edge_weights_start"@);
    lemma_header_pos(lines, q + 2, "$edge_weights_start"@);
    let slots = weight_slots_upto(sizes, dim, n);
    let c = slots.len() as int;
    lemma_first_words_from(lines, r, "$edge_weights_start"@, c, f.weights);
    let m = header_pos(lines, r + 1 + c, "$mu"@);
    lemma_header_pos(lines, r + 1 + c, "$mu"@);
    let fp = header_pos(lines, m + 2, "$external_magnetic_field"@);
    lemma_header_pos(lines, m + 2, "$external_magnetic_field"@);
    assert(m + 1 < len);
    assert(fp < len);
    assert(first_words_spec(lines, fp + 1, n) == Ok::<_, LineShortage>(f.magnetic_field));
    lemma_first_words_from(lines, fp, "$external_magnetic_field"@, n, f.magnetic_field);
    assert(first_words_from(lines, fp, "$external_magnetic_field"@, f.magnetic_field));
    (p, q, r, m, fp)
}

proof fn lemma_product_nonneg_here(s: Seq<usize>)
    ensures
        product(s) >= 0,
    decreases s.len(),
{
    if s.len() > 0 {
        lemma_product_nonneg_here(s.drop_last());
        vstd::arithmetic::mul::lemma_mul_nonnegative(product(s.drop_last()), s.last() as int);
    }
}

/// The lattice of an Ising model has the sides that the line after the
/// `$dim_sizes` header lists, in the order it lists them, after the
/// dimension.
pub proof fn lemma_ising_sizes_line(lines: Seq<Vec<char>>, f: IsingFileView)
    requires
        ising_file_spec(lines) == Ok::<_, IsingFileError>(f),
    ensures
        exists|q: int| #[trigger] sizes_read_from(lines, q, f),
{
    let pos = lemma_ising_headers(lines, f);
    assert(sizes_read_from(lines, pos.1, f));
}

/// The temperature of an Ising model is the first word of the line after the
/// `$temp` header, and `mu` the first word of the line after the `$mu` header.
pub proof fn lemma_ising_temp_mu_lines(lines: Seq<Vec<char>>, f: IsingFileView)
    requires
        ising_file_spec(lines) == Ok::<_, IsingFileError>(f),
    ensures
        exists|p: int|
            0 <= p && p + 1 < lines.len() && #[trigger] has_prefix(lines[p]@, "$temp"@) && words(
                lines[p + 1]@,
            ).len() > 0 && f.temp == words(lines[p + 1]@)[0],
        exists|m: int|
            0 <= m && m + 1 < lines.len() && #[trigger] has_prefix(lines[m]@, "$mu"@) && words(
                lines[m + 1]@,
            ).len() > 0 && f.mu == words(lines[m + 1]@)[0],
{
    let pos = lemma_ising_headers(lines, f);
    assert(has_prefix(lines[pos.0]@, "$temp"@));
    assert(has_prefix(lines[pos.3]@, "$mu"@));
}

/// The weights of an Ising model, one per bond to a higher site, are the
/// first words of the consecutive lines after the `$edge_weights_start`
/// header, in order.
pub proof fn lemma_ising_weight_lines(lines: Seq<Vec<char>>, f: IsingFileView)
    requires
        ising_file_spec(lines) == Ok::<_, IsingFileError>(f),
    ensures
        f.weights.len() == f.weight_slots.len(),
        exists|r: int| #[trigger] first_words_from(lines, r, "$edge_weights_start"@, f.weights),
{
    let pos = lemma_ising_headers(lines, f);
    assert(first_words_from(lines, pos.2, "$edge_weights_start"@, f.weights));
}

/// The magnetic field of an Ising model has one entry per site: entry `i`
/// is the first word of line `i` after the `$external_magnetic_field` header.
pub proof fn lemma_ising_field_lines(lines: Seq<Vec<char>>, f: IsingFileView)
    requires
        ising_file_spec(lines) == Ok::<_, IsingFileError>(f),
    ensures
        f.magnetic_field.len() == product(f.sizes),
        exists|r: int|
            #[trigger] first_words_from(lines, r, "$external_magnetic_field"@, f.magnetic_field),
{
    let pos = lemma_ising_headers(lines, f);
    assert(first_words_from(lines, pos.4, "$external_magnetic_field"@, f.magnetic_field));
}

} // verus!
