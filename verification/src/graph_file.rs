use vstd::prelude::*;
use crate::text::{
    find_header, has_prefix, header_pos, lemma_header_pos, min, parse_usize, parsed_usize, split_words, starts_with,
    trim, trimmed, views, words,
};

verus! {

/// Why the text of a graph model is rejected.
#[derive(Debug, Clone, Copy, PartialEq, Eq)]
pub enum GraphFileError {
    /// No `$n_points_temp` header with a line after it.
    MissingPointsTemp,
    /// The line after `$n_points_temp` is blank.
    MissingPointsCount,
    /// The number of points is not an unsigned integer.
    BadPointsCount,
    /// The line after `$n_points_temp` has no temperature.
    MissingTemp,
    /// No `$begin_score_matrix` or `$begin_edge_weights` header.
    MissingWeightsSection,
    /// A row of the score matrix has `found` entries instead of `expected`,
    /// one per point.
    ScoreColumns { expected: usize, found: usize },
    /// The score matrix has `found` rows instead of `expected`, one per point.
    ScoreRows { expected: usize, found: usize },
    /// An edge line is blank.
    MissingFrom,
    /// The first node of an edge is not an unsigned integer.
    BadFrom,
    /// An edge line has no second node.
    MissingTo,
    /// The second node of an edge is not an unsigned integer.
    BadTo,
    /// An edge names a node outside the graph.
    NodeOutOfRange { to: usize, from: usize },
    /// An edge line has no weight.
    MissingWeight,
    /// No `$initial_state` header.
    MissingInitialState,
    /// No line after `$initial_state`.
    MissingStart,
    /// The start node is not an unsigned integer.
    BadStart,
    /// The start node lies outside the graph of `len` points.
    StartOutOfRange { start: usize, len: usize },
}

/// How the weights of a graph model are given.
#[derive(Debug)]
pub enum GraphWeights {
    /// One row of words per point: entry `(i, j)` of the adjacency-cost
    /// matrix, with the cost of point `i` on the diagonal.
    ScoreMatrix(Vec<Vec<Vec<char>>>),
    /// Weighted edges `from to weight`; every other entry of the matrix is zero.
    EdgeList(Vec<(usize, usize, Vec<char>)>),
}

/// The initial state of a graph model.
#[derive(Debug)]
pub enum InitialState {
    /// The probability of each point, one trimmed line each.
    Distribution(Vec<Vec<char>>),
    /// All probability on one point.
    Start(usize),
}

/// A graph model as its text gives it; numbers with a fractional part are
/// kept as the words that spell them.
#[derive(Debug)]
pub struct GraphFile {
    pub n_points: usize,
    pub temp: Vec<char>,
    pub weights: GraphWeights,
    pub initial: InitialState,
}

/// The contents of `GraphWeights`.
pub enum GraphWeightsView {
    ScoreMatrix(Seq<Seq<Seq<char>>>),
    EdgeList(Seq<(usize, usize, Seq<char>)>),
}

/// The contents of `InitialState`.
pub enum InitialStateView {
    Distribution(Seq<Seq<char>>),
    Start(usize),
}

/// The contents of `GraphFile`.
pub struct GraphFileView {
    pub n_points: usize,
    pub temp: Seq<char>,
    pub weights: GraphWeightsView,
    pub initial: InitialStateView,
}

impl View for GraphWeights {
    type V = GraphWeightsView;

    open spec fn view(&self) -> GraphWeightsView {
        match self {
            GraphWeights::ScoreMatrix(rows) => GraphWeightsView::ScoreMatrix(row_views(rows@)),
            GraphWeights::EdgeList(edges) => GraphWeightsView::EdgeList(edge_views(edges@)),
        }
    }
}

impl View for InitialState {
    type V = InitialStateView;

    open spec fn view(&self) -> InitialStateView {
        match self {
            InitialState::Distribution(values) => InitialStateView::Distribution(views(values@)),
            InitialState::Start(s) => InitialStateView::Start(*s),
        }
    }
}

impl View for GraphFile {
    type V = GraphFileView;

    open spec fn view(&self) -> GraphFileView {
        GraphFileView {
            n_points: self.n_points,
            temp: self.temp@,
            weights: self.weights@,
            initial: self.initial@,
        }
    }
}

/// The contents of each row of words.
pub open spec fn row_views(rows: Seq<Vec<Vec<char>>>) -> Seq<Seq<Seq<char>>> {
    rows.map_values(|r: Vec<Vec<char>>| views(r@))
}

/// The contents of each edge.
pub open spec fn edge_views(edges: Seq<(usize, usize, Vec<char>)>) -> Seq<(usize, usize, Seq<char>)> {
    edges.map_values(|e: (usize, usize, Vec<char>)| (e.0, e.1, e.2@))
}

/// The first line at or after `from` that opens a score matrix or an edge
/// list; the number of lines if there is none.
pub open spec fn weights_header_pos(lines: Seq<Vec<char>>, from: int) -> int
    decreases lines.len() - from,
{
    if from >= lines.len() {
        lines.len() as int
    } else if has_prefix(lines[from]@, "$begin_score_matrix"@) || has_prefix(
        lines[from]@,
        "$begin_edge_weights"@,
    ) {
        from
    } else {
        weights_header_pos(lines, from + 1)
    }
}

/// The first line at or after `from` that ends an edge list: one that is
/// blank or begins with `$`; the number of lines if there is none.
pub open spec fn edge_list_end(lines: Seq<Vec<char>>, from: int) -> int
    decreases lines.len() - from,
{
    if from >= lines.len() {
        lines.len() as int
    } else if trimmed(lines[from]@).len() == 0 || has_prefix(lines[from]@, "$"@) {
        from
    } else {
        edge_list_end(lines, from + 1)
    }
}

/// The edge an edge line gives, or why it gives none.
pub open spec fn edge_entry(line: Seq<char>, n: int) -> Result<(usize, usize, Seq<char>), GraphFileError> {
    let w = words(line);
    if w.len() < 1 {
        Err(GraphFileError::MissingFrom)
    } else if parsed_usize(w[0]) is None {
        Err(GraphFileError::BadFrom)
    } else if w.len() < 2 {
        Err(GraphFileError::MissingTo)
    } else if parsed_usize(w[1]) is None {
        Err(GraphFileError::BadTo)
    } else {
        let from = parsed_usize(w[0]).unwrap();
        let to = parsed_usize(w[1]).unwrap();
        if !(to < n && from < n) {
            Err(GraphFileError::NodeOutOfRange { to, from })
        } else if w.len() < 3 {
            Err(GraphFileError::MissingWeight)
        } else {
            Ok((from, to, w[2]))
        }
    }
}

/// The edges of lines `from..end`, or the error of the first line that
/// gives none.
pub open spec fn edge_entries(lines: Seq<Vec<char>>, from: int, end: int, n: int) -> Result<
    Seq<(usize, usize, Seq<char>)>,
    GraphFileError,
>
    decreases end - from,
{
    if from >= end {
        Ok(Seq::empty())
    } else {
        match edge_entry(lines[from]@, n) {
            Err(e) => Err(e),
            Ok(edge) => match edge_entries(lines, from + 1, end, n) {
                Err(e) => Err(e),
                Ok(rest) => Ok(seq![edge] + rest),
            },
        }
    }
}

/// The first of the `rows` whose number of words is not `n`; `rows.len()`
/// if there is none.
pub open spec fn first_bad_row(rows: Seq<Seq<Seq<char>>>, n: int, t: int) -> int
    decreases rows.len() - t,
{
    if t >= rows.len() {
        rows.len() as int
    } else if rows[t].len() != n {
        t
    } else {
        first_bad_row(rows, n, t + 1)
    }
}

/// The weights whose header stands at or after line `from`, with the line
/// where reading goes on.
pub open spec fn weights_spec(lines: Seq<Vec<char>>, from: int, n: int) -> Result<
    (GraphWeightsView, int),
    GraphFileError,
> {
    let len = lines.len() as int;
    let q = weights_header_pos(lines, from);
    if q >= len {
        Err(GraphFileError::MissingWeightsSection)
    } else if has_prefix(lines[q]@, "$begin_score_matrix"@) {
        let m = min(n, len - (q + 1));
        let rows = Seq::new(m as nat, |t: int| words(lines[q + 1 + t]@));
        let bad = first_bad_row(rows, n, 0);
        if bad < m {
            Err(GraphFileError::ScoreColumns { expected: n as usize, found: rows[bad].len() as usize })
        } else if m < n {
            Err(GraphFileError::ScoreRows { expected: n as usize, found: m as usize })
        } else {
            Ok((GraphWeightsView::ScoreMatrix(rows), q + 1 + m))
        }
    } else {
        let e = edge_list_end(lines, q + 1);
        match edge_entries(lines, q + 1, e, n) {
            Err(err) => Err(err),
            Ok(edges) => Ok((GraphWeightsView::EdgeList(edges), min(e + 1, len))),
        }
    }
}

/// The initial state whose header stands at or after line `from`.
pub open spec fn initial_spec(lines: Seq<Vec<char>>, from: int, n: int) -> Result<
    InitialStateView,
    GraphFileError,
> {
    let len = lines.len() as int;
    let r = header_pos(lines, from, "$initial_state"@);
    if r >= len {
        Err(GraphFileError::MissingInitialState)
    } else if has_prefix(lines[r]@, "$initial_state_vec"@) {
        let m = min(n, len - (r + 1));
        Ok(InitialStateView::Distribution(Seq::new(m as nat, |t: int| trimmed(lines[r + 1 + t]@))))
    } else if r + 1 >= len {
        Err(GraphFileError::MissingStart)
    } else {
        match parsed_usize(trimmed(lines[r + 1]@)) {
            None => Err(GraphFileError::BadStart),
            Some(start) => if start < n {
                Ok(InitialStateView::Start(start))
            } else {
                Err(GraphFileError::StartOutOfRange { start, len: n as usize })
            },
        }
    }
}

/// The graph model that `lines` describe, or why they describe none.
pub open spec fn graph_file_spec(lines: Seq<Vec<char>>) -> Result<GraphFileView, GraphFileError> {
    let len = lines.len() as int;
    let p = header_pos(lines, 0, "$n_points_temp"@);
    if p + 1 >= len {
        Err(GraphFileError::MissingPointsTemp)
    } else {
        let w = words(lines[p + 1]@);
        if w.len() == 0 {
            Err(GraphFileError::MissingPointsCount)
        } else if parsed_usize(w[0]) is None {
            Err(GraphFileError::BadPointsCount)
        } else if w.len() < 2 {
            Err(GraphFileError::MissingTemp)
        } else {
            let n = parsed_usize(w[0]).unwrap();
            match weights_spec(lines, p + 2, n as int) {
                Err(e) => Err(e),
                Ok((weights, next)) => match initial_spec(lines, next, n as int) {
                    Err(e) => Err(e),
                    Ok(initial) => Ok(
                        GraphFileView { n_points: n, temp: w[1], weights, initial },
                    ),
                },
            }
        }
    }
}

/// The contents of a parse result.
pub open spec fn graph_result_view(r: Result<GraphFile, GraphFileError>) -> Result<
    GraphFileView,
    GraphFileError,
> {
    match r {
        Ok(g) => Ok(g@),
        Err(e) => Err(e),
    }
}


/// The contents of a weights result.
pub open spec fn weights_result_view(r: Result<(GraphWeights, usize), GraphFileError>) -> Result<
    (GraphWeightsView, int),
    GraphFileError,
> {
    match r {
        Ok((w, next)) => Ok((w@, next as int)),
        Err(e) => Err(e),
    }
}

/// The contents of an edge result.
pub open spec fn edge_result_view(r: Result<(usize, usize, Vec<char>), GraphFileError>) -> Result<
    (usize, usize, Seq<char>),
    GraphFileError,
> {
    match r {
        Ok((a, b, w)) => Ok((a, b, w@)),
        Err(e) => Err(e),
    }
}

/// The contents of an initial-state result.
pub open spec fn initial_result_view(r: Result<InitialState, GraphFileError>) -> Result<
    InitialStateView,
    GraphFileError,
> {
    match r {
        Ok(s) => Ok(s@),
        Err(e) => Err(e),
    }
}

/// `pre` followed by the edges of `r`, or the error of `r`.
pub open spec fn prepend_edges(
    pre: Seq<(usize, usize, Seq<char>)>,
    r: Result<Seq<(usize, usize, Seq<char>)>, GraphFileError>,
) -> Result<Seq<(usize, usize, Seq<char>)>, GraphFileError> {
    match r {
        Ok(rest) => Ok(pre + rest),
        Err(e) => Err(e),
    }
}

/// The first line at or after `from` that opens a score matrix or an edge list.
fn find_weights_header(lines: &Vec<Vec<char>>, from: usize) -> (r: usize)
    ensures
        r == weights_header_pos(lines@, from as int),
{
    let mut i = from;
    while i < lines.len() && !starts_with(&lines[i], "$begin_score_matrix") && !starts_with(
        &lines[i],
        "$begin_edge_weights",
    )
        invariant
            from <= i,
            weights_header_pos(lines@, from as int) == weights_header_pos(lines@, i as int),
        decreases lines@.len() - i,
    {
        i = i + 1;
    }
    if i >= lines.len() {
        lines.len()
    } else {
        i
    }
}

/// The first line at or after `from` that ends an edge list.
fn find_edge_list_end(lines: &Vec<Vec<char>>, from: usize) -> (r: usize)
    ensures
        r == edge_list_end(lines@, from as int),
        r <= lines@.len(),
{
    let mut i = from;
    while i < lines.len() && trim(&lines[i]).len() != 0 && !starts_with(&lines[i], "$")
        invariant
            from <= i,
            edge_list_end(lines@, from as int) == edge_list_end(lines@, i as int),
        decreases lines@.len() - i,
    {
        i = i + 1;
    }
    if i >= lines.len() {
        lines.len()
    } else {
        i
    }
}

/// The edge an edge line gives: two node numbers below `n` and a weight.
pub fn parse_edge_line(line: &Vec<char>, n: usize) -> (r: Result<(usize, usize, Vec<char>), GraphFileError>)
    ensures
        edge_result_view(r) == edge_entry(line@, n as int),
{
    let w = split_words(line);
    if w.len() < 1 {
        return Err(GraphFileError::MissingFrom);
    }
    let from = match parse_usize(&w[0]) {
        Some(v) => v,
        None => {
            return Err(GraphFileError::BadFrom);
        },
    };
    if w.len() < 2 {
        return Err(GraphFileError::MissingTo);
    }
    let to = match parse_usize(&w[1]) {
        Some(v) => v,
        None => {
            return Err(GraphFileError::BadTo);
        },
    };
    if !(to < n && from < n) {
        return Err(GraphFileError::NodeOutOfRange { to, from });
    }
    if w.len() < 3 {
        return Err(GraphFileError::MissingWeight);
    }
    let weight = w[2].clone();
    proof {
        assert(views(w@)[2] == w@[2]@);
    }
    Ok((from, to, weight))
}

/// The weights whose header stands at or after line `from`, with the line
/// where reading goes on.
#[verifier::loop_isolation(false)]
pub fn read_weights(lines: &Vec<Vec<char>>, from: usize, n: usize) -> (r: Result<
    (GraphWeights, usize),
    GraphFileError,
>)
    ensures
        weights_result_view(r) == weights_spec(lines@, from as int, n as int),
{
    let len = lines.len();
    let q = find_weights_header(lines, from);
    if q >= len {
        return Err(GraphFileError::MissingWeightsSection);
    }
    if starts_with(&lines[q], "$begin_score_matrix") {
        let avail = len - (q + 1);
        let m = if n < avail {
            n
        } else {
            avail
        };
        let ghost all = Seq::new(m as nat, |t: int| words(lines@[q + 1 + t]@));
        let mut rows: Vec<Vec<Vec<char>>> = Vec::new();
        let mut t: usize = 0;
        while t < m
            invariant
                len == lines@.len(),
                q < len,
                m == min(n as int, len - (q + 1)),
                all == Seq::new(m as nat, |t: int| words(lines@[q + 1 + t]@)),
                t <= m,
                row_views(rows@) == all.take(t as int),
                first_bad_row(all, n as int, 0) == first_bad_row(all, n as int, t as int),
            decreases m - t,
        {
            let w = split_words(&lines[q + 1 + t]);
            if w.len() != n {
                proof {
                    assert(all[t as int] == views(w@));
                    assert(first_bad_row(all, n as int, t as int) == t);
                }
                return Err(GraphFileError::ScoreColumns { expected: n, found: w.len() });
            }
            let ghost before = row_views(rows@);
            rows.push(w);
            proof {
                assert(row_views(rows@) =~= before.push(views(w@)));
                assert(all.take(t + 1) =~= all.take(t as int).push(all[t as int]));
            }
            t = t + 1;
        }
        if m < n {
            return Err(GraphFileError::ScoreRows { expected: n, found: m });
        }
        proof {
            assert(all.take(m as int) =~= all);
        }
        Ok((GraphWeights::ScoreMatrix(rows), q + 1 + m))
    } else {
        let e = find_edge_list_end(lines, q + 1);
        let mut edges: Vec<(usize, usize, Vec<char>)> = Vec::new();
        let mut t = q + 1;
        while t < e
            invariant
                q + 1 <= t,
                e == edge_list_end(lines@, q + 1),
                e <= lines@.len(),
                edge_entries(lines@, q + 1, e as int, n as int) == prepend_edges(
                    edge_views(edges@),
                    edge_entries(lines@, t as int, e as int, n as int),
                ),
            decreases e - t,
        {
            let entry = parse_edge_line(&lines[t], n);
            match entry {
                Err(err) => {
                    return Err(err);
                },
                Ok(edge) => {
                    let ghost pre = edge_views(edges@);
                    let ghost ev = (edge.0, edge.1, edge.2@);
                    edges.push(edge);
                    proof {
                        assert(edge_views(edges@) =~= pre.push(ev));
                        match edge_entries(lines@, t + 1, e as int, n as int) {
                            Ok(rest) => {
                                assert(pre + (seq![ev] + rest) =~= pre.push(ev) + rest);
                            },
                            Err(_) => {},
                        }
                    }
                },
            }
            t = t + 1;
        }
        proof {
            assert(edge_views(edges@) + Seq::<(usize, usize, Seq<char>)>::empty() =~= edge_views(
                edges@,
            ));
        }
        let next = if e < len {
            e + 1
        } else {
            len
        };
        Ok((GraphWeights::EdgeList(edges), next))
    }
}

/// The initial state whose header stands at or after line `from`.
#[verifier::loop_isolation(false)]
pub fn read_initial_state(lines: &Vec<Vec<char>>, from: usize, n: usize) -> (r: Result<
    InitialState,
    GraphFileError,
>)
    ensures
        initial_result_view(r) == initial_spec(lines@, from as int, n as int),
{
    let len = lines.len();
    let r = find_header(lines, from, "$initial_state");
    if r >= len {
        return Err(GraphFileError::MissingInitialState);
    }
    if starts_with(&lines[r], "$initial_state_vec") {
        let avail = len - (r + 1);
        let m = if n < avail {
            n
        } else {
            avail
        };
        let mut values: Vec<Vec<char>> = Vec::new();
        let mut t: usize = 0;
        while t < m
            invariant
                len == lines@.len(),
                r < len,
                m == min(n as int, len - (r + 1)),
                t <= m,
                views(values@) == Seq::new(t as nat, |i: int| trimmed(lines@[r + 1 + i]@)),
            decreases m - t,
        {
            let v = trim(&lines[r + 1 + t]);
            let ghost before = views(values@);
            values.push(v);
            proof {
                assert(views(values@) =~= before.push(v@));
                assert(before.push(v@) =~= Seq::new((t + 1) as nat, |i: int| trimmed(lines@[r + 1 + i]@)));
            }
            t = t + 1;
        }
        return Ok(InitialState::Distribution(values));
    }
    if r + 1 >= len {
        return Err(GraphFileError::MissingStart);
    }
    match parse_usize(&trim(&lines[r + 1])) {
        None => Err(GraphFileError::BadStart),
        Some(start) => if start < n {
            Ok(InitialState::Start(start))
        } else {
            Err(GraphFileError::StartOutOfRange { start, len: n })
        },
    }
}

/// The graph model that `lines` describe: the number of points and the
/// temperature on the line after `$n_points_temp`, then a score matrix or an
/// edge list, then the initial state; or the first reason they describe none.
pub fn parse_graph_file(lines: &Vec<Vec<char>>) -> (r: Result<GraphFile, GraphFileError>)
    ensures
        graph_result_view(r) == graph_file_spec(lines@),
{
    let len = lines.len();
    let p = find_header(lines, 0, "$n_points_temp");
    if p >= len || p + 1 >= len {
        return Err(GraphFileError::MissingPointsTemp);
    }
    let w = split_words(&lines[p + 1]);
    if w.len() == 0 {
        return Err(GraphFileError::MissingPointsCount);
    }
    let n = match parse_usize(&w[0]) {
        Some(v) => v,
        None => {
            return Err(GraphFileError::BadPointsCount);
        },
    };
    if w.len() < 2 {
        return Err(GraphFileError::MissingTemp);
    }
    let temp = w[1].clone();
    proof {
        assert(views(w@)[0] == w@[0]@);
        assert(views(w@)[1] == w@[1]@);
    }
    let (weights, next) = match read_weights(lines, p + 2, n) {
        Ok(v) => v,
        Err(e) => {
            return Err(e);
        },
    };
    let initial = match read_initial_state(lines, next, n) {
        Ok(v) => v,
        Err(e) => {
            return Err(e);
        },
    };
    Ok(GraphFile { n_points: n, temp, weights, initial })
}

proof fn lemma_weights_header_pos(lines: Seq<Vec<char>>, from: int)
    requires
        0 <= from,
    ensures
        weights_header_pos(lines, from) < lines.len() ==> from <= weights_header_pos(lines, from)
            && (has_prefix(lines[weights_header_pos(lines, from)]@, "$begin_score_matrix"@)
            || has_prefix(lines[weights_header_pos(lines, from)]@, "$begin_edge_weights"@)),
    decreases lines.len() - from,
{
    if from < lines.len() && !(has_prefix(lines[from]@, "$begin_score_matrix"@) || has_prefix(
        lines[from]@,
        "$begin_edge_weights"@,
    )) {
        lemma_weights_header_pos(lines, from + 1);
    }
}

proof fn lemma_edge_list_end(lines: Seq<Vec<char>>, from: int)
    requires
        0 <= from <= lines.len(),
    ensures
        from <= edge_list_end(lines, from) <= lines.len(),
        edge_list_end(lines, from) < lines.len() ==> (trimmed(lines[edge_list_end(lines, from)]@).len()
            == 0 || has_prefix(lines[edge_list_end(lines, from)]@, "$"@)),
        forall|k: int|
            from <= k < edge_list_end(lines, from) ==> trimmed(#[trigger] lines[k]@).len() != 0
                && !has_prefix(lines[k]@, "$"@),
    decreases lines.len() - from,
{
    if from < lines.len() && !(trimmed(lines[from]@).len() == 0 || has_prefix(lines[from]@, "$"@)) {
        lemma_edge_list_end(lines, from + 1);
    }
}

proof fn lemma_edge_entries(
    lines: Seq<Vec<char>>,
    from: int,
    end: int,
    n: int,
    edges: Seq<(usize, usize, Seq<char>)>,
)
    requires
        from <= end,
        edge_entries(lines, from, end, n) == Ok::<_, GraphFileError>(edges),
    ensures
        edges.len() == end - from,
        forall|k: int| 0 <= k < edges.len() ==> edge_entry(lines[from + k]@, n) == Ok::<_, GraphFileError>(#[trigger] edges[k]),
    decreases end - from,
{
    if from < end {
        let edge = edge_entry(lines[from]@, n)->Ok_0;
        let rest = edge_entries(lines, from + 1, end, n)->Ok_0;
        lemma_edge_entries(lines, from + 1, end, n, rest);
        assert(edges == seq![edge] + rest);
        assert forall|k: int| 0 <= k < edges.len() implies edge_entry(lines[from + k]@, n) == Ok::<
            _,
            GraphFileError,
        >(#[trigger] edges[k]) by {
            if k > 0 {
                assert(edges[k] == rest[k - 1]);
                assert(from + k == (from + 1) + (k - 1));
            }
        }
    } else {
        assert(edges == Seq::<(usize, usize, Seq<char>)>::empty());
    }
}

/// The number of points and the temperature are the first two words of the
/// line after a `$n_points_temp` header.
pub proof fn lemma_points_temp_line(lines: Seq<Vec<char>>, g: GraphFileView)
    requires
        graph_file_spec(lines) == Ok::<_, GraphFileError>(g),
    ensures
        exists|p: int|
            0 <= p && p + 1 < lines.len() && #[trigger] has_prefix(lines[p]@, "$n_points_temp"@)
                && words(lines[p + 1]@).len() >= 2 && parsed_usize(words(lines[p + 1]@)[0]) == Some(
                g.n_points,
            ) && g.temp == words(lines[p + 1]@)[1],
{
    let p = header_pos(lines, 0, "$n_points_temp"@);
    lemma_header_pos(lines, 0, "$n_points_temp"@);
    assert(has_prefix(lines[p]@, "$n_points_temp"@));
}

/// A score matrix has one row per point, and row `i` is the list of words of
/// line `i` after the `$begin_score_matrix` header, with one word per point:
/// entry `(i, j)` is word `j` of that line.
pub proof fn lemma_score_matrix_rows(lines: Seq<Vec<char>>, g: GraphFileView)
    requires
        graph_file_spec(lines) == Ok::<_, GraphFileError>(g),
        g.weights is ScoreMatrix,
    ensures
        exists|q: int|
            0 <= q && q + 1 + g.n_points <= lines.len() && #[trigger] has_prefix(
                lines[q]@,
                "$begin_score_matrix"@,
            ) && g.weights->ScoreMatrix_0.len() == g.n_points && (forall|i: int|
                0 <= i < g.n_points ==> (#[trigger] g.weights->ScoreMatrix_0[i]) == words(
                    lines[q + 1 + i]@,
                ) && g.weights->ScoreMatrix_0[i].len() == g.n_points),
{
    let p = header_pos(lines, 0, "$n_points_temp"@);
    lemma_header_pos(lines, 0, "$n_points_temp"@);
    let n = g.n_points as int;
    let q = weights_header_pos(lines, p + 2);
    lemma_weights_header_pos(lines, p + 2);
    let len = lines.len() as int;
    let m = min(n, len - (q + 1));
    let rows = Seq::new(m as nat, |t: int| words(lines[q + 1 + t]@));
    assert(has_prefix(lines[q]@, "$begin_score_matrix"@));
    assert(first_bad_row(rows, n, 0) >= m);
    assert forall|i: int| 0 <= i < m implies rows[i].len() == n by {
        lemma_first_bad_row(rows, n, 0, i);
    }
    assert(g.weights->ScoreMatrix_0 == rows);
}

proof fn lemma_first_bad_row(rows: Seq<Seq<Seq<char>>>, n: int, t: int, i: int)
    requires
        0 <= t <= i < rows.len(),
        first_bad_row(rows, n, t) >= rows.len(),
    ensures
        rows[i].len() == n,
    decreases i - t,
{
    if t < i {
        lemma_first_bad_row(rows, n, t + 1, i);
    }
}

/// The edge list of `g` is read from the consecutive lines after the
/// `$begin_edge_weights` header at line `q`, up to the first blank line or
/// line that begins with `$`: edge `k` joins the nodes named by the first two
/// words of line `k` after the header, both below the number of points, and
/// has the third word as its weight.
pub open spec fn edges_read_from(lines: Seq<Vec<char>>, q: int, g: GraphFileView) -> bool {
    let edges = g.weights->EdgeList_0;
    &&& 0 <= q
    &&& q + 1 + edges.len() <= lines.len()
    &&& has_prefix(lines[q]@, "$begin_edge_weights"@)
    &&& (q + 1 + edges.len() == lines.len() || trimmed(lines[q + 1 + edges.len()]@).len() == 0
        || has_prefix(lines[q + 1 + edges.len()]@, "$"@))
    &&& forall|k: int|
        0 <= k < edges.len() ==> edge_from_line(lines[q + 1 + k]@, #[trigger] edges[k], g.n_points)
}

/// `line` names the two nodes of `e`, both below `n`, and has its weight as
/// third word.
pub open spec fn edge_from_line(line: Seq<char>, e: (usize, usize, Seq<char>), n: usize) -> bool {
    let w = words(line);
    &&& w.len() >= 3
    &&& parsed_usize(w[0]) == Some(e.0)
    &&& parsed_usize(w[1]) == Some(e.1)
    &&& e.2 == w[2]
    &&& e.0 < n
    &&& e.1 < n
}

/// An edge list is read line by line from after its header: see
/// `edges_read_from`.
pub proof fn lemma_edge_list_lines(lines: Seq<Vec<char>>, g: GraphFileView)
    requires
        graph_file_spec(lines) == Ok::<_, GraphFileError>(g),
        g.weights is EdgeList,
    ensures
        exists|q: int| #[trigger] edges_read_from(lines, q, g),
{
    let p = header_pos(lines, 0, "$n_points_temp"@);
    lemma_header_pos(lines, 0, "$n_points_temp"@);
    let n = g.n_points as int;
    let q = weights_header_pos(lines, p + 2);
    lemma_weights_header_pos(lines, p + 2);
    let len = lines.len() as int;
    assert(q < len);
    assert(!has_prefix(lines[q]@, "$begin_score_matrix"@));
    assert(has_prefix(lines[q]@, "$begin_edge_weights"@));
    let end = edge_list_end(lines, q + 1);
    lemma_edge_list_end(lines, q + 1);
    let edges = g.weights->EdgeList_0;
    assert(edge_entries(lines, q + 1, end, n) == Ok::<_, GraphFileError>(edges));
    lemma_edge_entries(lines, q + 1, end, n, edges);
    assert forall|k: int| 0 <= k < edges.len() implies edge_from_line(
        lines[q + 1 + k]@,
        #[trigger] edges[k],
        g.n_points,
    ) by {
        assert(edge_entry(lines[q + 1 + k]@, n) == Ok::<_, GraphFileError>(edges[k]));
    }
    assert(end == q + 1 + edges.len());
    assert(q + 1 + edges.len() <= len);
    assert(q + 1 + edges.len() == len || trimmed(lines[q + 1 + edges.len()]@).len() == 0 || has_prefix(
        lines[q + 1 + edges.len()]@,
        "$"@,
    ));
    assert(edges_read_from(lines, q, g));
}

/// A distribution as initial state has one entry per point, as far as the
/// text goes: entry `t` is line `t` after the `$initial_state_vec` header,
/// trimmed.
pub proof fn lemma_distribution_lines(lines: Seq<Vec<char>>, g: GraphFileView)
    requires
        graph_file_spec(lines) == Ok::<_, GraphFileError>(g),
        g.initial is Distribution,
    ensures
        exists|r: int|
            0 <= r < lines.len() && #[trigger] has_prefix(lines[r]@, "$initial_state_vec"@)
                && g.initial->Distribution_0.len() == min(g.n_points as int, lines.len() - (r + 1))
                && (forall|t: int|
                0 <= t < g.initial->Distribution_0.len() ==> #[trigger] g.initial->Distribution_0[t]
                    == trimmed(lines[r + 1 + t]@)),
{
    let p = header_pos(lines, 0, "$n_points_temp"@);
    lemma_header_pos(lines, 0, "$n_points_temp"@);
    let n = g.n_points as int;
    let next = weights_spec(lines, p + 2, n)->Ok_0.1;
    lemma_weights_next(lines, p + 2, n);
    let r = header_pos(lines, next, "$initial_state"@);
    lemma_header_pos(lines, next, "$initial_state"@);
    assert(has_prefix(lines[r]@, "$initial_state_vec"@));
}

/// A start node as initial state is the unsigned integer on the line after
/// the `$initial_state` header, and it is a point of the graph.
pub proof fn lemma_start_line(lines: Seq<Vec<char>>, g: GraphFileView)
    requires
        graph_file_spec(lines) == Ok::<_, GraphFileError>(g),
        g.initial is Start,
    ensures
        exists|r: int|
            0 <= r && r + 1 < lines.len() && #[trigger] has_prefix(lines[r]@, "$initial_state"@)
                && parsed_usize(trimmed(lines[r + 1]@)) == Some(g.initial->Start_0)
                && g.initial->Start_0 < g.n_points,
{
    let p = header_pos(lines, 0, "$n_points_temp"@);
    lemma_header_pos(lines, 0, "$n_points_temp"@);
    let n = g.n_points as int;
    let next = weights_spec(lines, p + 2, n)->Ok_0.1;
    lemma_weights_next(lines, p + 2, n);
    let r = header_pos(lines, next, "$initial_state"@);
    lemma_header_pos(lines, next, "$initial_state"@);
    assert(has_prefix(lines[r]@, "$initial_state"@));
}

proof fn lemma_weights_next(lines: Seq<Vec<char>>, from: int, n: int)
    requires
        0 <= from,
        0 <= n,
        weights_spec(lines, from, n) is Ok,
    ensures
        0 <= weights_spec(lines, from, n)->Ok_0.1,
{
    let q = weights_header_pos(lines, from);
    lemma_weights_header_pos(lines, from);
    if !has_prefix(lines[q]@, "$begin_score_matrix"@) {
        lemma_edge_list_end(lines, q + 1);
    }
}

} // verus!
