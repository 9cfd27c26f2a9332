//! Input checks and the construction of the valid guide list.
use vstd::prelude::*;

verus! {

/// Why a run was refused.
#[derive(Debug, Clone, Copy, PartialEq, Eq, Structural)]
pub enum RraError {
    /// The measurement sequence is empty.
    EmptyValues,
    /// The gene identifiers are not as many as the measurements.
    GenesLengthMismatch,
    /// The weights are not as many as the measurements.
    WeightsLengthMismatch,
    /// The p-values are not as many as the measurements.
    PValuesLengthMismatch,
    /// Filtering left no guide.
    NoValidGuides,
    /// No gene has the minimum number of guides.
    NoQualifyingGenes,
}

impl RraError {
    /// Whether the error is a malformed call rather than an empty result.
    pub fn is_invalid_input(&self) -> (r: bool)
        ensures
            r == (self == RraError::EmptyValues || self == RraError::GenesLengthMismatch || self
                == RraError::WeightsLengthMismatch || self == RraError::PValuesLengthMismatch),
    {
        match self {
            RraError::EmptyValues => true,
            RraError::GenesLengthMismatch => true,
            RraError::WeightsLengthMismatch => true,
            RraError::PValuesLengthMismatch => true,
            RraError::NoValidGuides => false,
            RraError::NoQualifyingGenes => false,
        }
    }
}

/// What a call's sequence lengths say of it: the first problem found, in the
/// order empty measurements, genes, weights, p-values.
pub open spec fn length_problem(
    n_values: nat,
    n_genes: nat,
    n_weights: Option<nat>,
    n_p_values: Option<nat>,
) -> Option<RraError> {
    if n_values == 0 {
        Some(RraError::EmptyValues)
    } else if n_genes != n_values {
        Some(RraError::GenesLengthMismatch)
    } else if n_weights is Some && n_weights->0 != n_values {
        Some(RraError::WeightsLengthMismatch)
    } else if n_p_values is Some && n_p_values->0 != n_values {
        Some(RraError::PValuesLengthMismatch)
    } else {
        None
    }
}

pub open spec fn opt_nat(n: Option<usize>) -> Option<nat> {
    match n {
        Some(v) => Some(v as nat),
        None => None,
    }
}

/// Checks the lengths of the parallel input sequences (the optional ones only
/// where given).
pub fn validate_lengths(
    n_values: usize,
    n_genes: usize,
    n_weights: Option<usize>,
    n_p_values: Option<usize>,
) -> (r: Result<(), RraError>)
    ensures
        r is Ok <==> length_problem(
            n_values as nat,
            n_genes as nat,
            opt_nat(n_weights),
            opt_nat(n_p_values),
        ) is None,
        r is Err ==> Some(r->Err_0) == length_problem(
            n_values as nat,
            n_genes as nat,
            opt_nat(n_weights),
            opt_nat(n_p_values),
        ),
{
    if n_values == 0 {
        return Err(RraError::EmptyValues);
    }
    if n_genes != n_values {
        return Err(RraError::GenesLengthMismatch);
    }
    if let Some(w) = n_weights {
        if w != n_values {
            return Err(RraError::WeightsLengthMismatch);
        }
    }
    if let Some(p) = n_p_values {
        if p != n_values {
            return Err(RraError::PValuesLengthMismatch);
        }
    }
    Ok(())
}

/// One valid guide: its trimmed gene identifier, the order key of its
/// measurement, and its position in the caller's sequences (where its raw
/// measurement and weight stay).
#[derive(Debug)]
pub struct GuideEntry {
    pub gene: String,
    pub key: i64,
    pub source: usize,
}

impl View for GuideEntry {
    type V = (Seq<char>, i64, usize);

    open spec fn view(&self) -> (Seq<char>, i64, usize) {
        (self.gene@, self.key, self.source)
    }
}

pub open spec fn entries_view(v: Seq<GuideEntry>) -> Seq<(Seq<char>, i64, usize)> {
    v.map_values(|e: GuideEntry| e@)
}

/// The guides among the first `n` that are kept: those whose measurement has
/// an order key (it is finite) and whose gene identifier is not empty, in
/// input order.
pub open spec fn kept_prefix(keys: Seq<Option<i64>>, genes: Seq<Seq<char>>, n: int) -> Seq<
    (Seq<char>, i64, usize),
>
    decreases n,
{
    if n <= 0 {
        Seq::empty()
    } else {
        let prev = kept_prefix(keys, genes, n - 1);
        if keys[n - 1] is Some && genes[n - 1].len() > 0 {
            prev.push((genes[n - 1], keys[n - 1]->0, (n - 1) as usize))
        } else {
            prev
        }
    }
}

pub open spec fn kept_guides(keys: Seq<Option<i64>>, genes: Seq<Seq<char>>) -> Seq<
    (Seq<char>, i64, usize),
> {
    kept_prefix(keys, genes, keys.len() as int)
}

pub open spec fn strings_view(v: Seq<String>) -> Seq<Seq<char>> {
    v.map_values(|s: String| s@)
}

/// Builds the guide list from order keys (`None` for a non-finite
/// measurement) and gene identifiers that are already trimmed.
pub fn select_guides(keys: &Vec<Option<i64>>, genes: &Vec<String>) -> (r: Result<
    Vec<GuideEntry>,
    RraError,
>)
    requires
        keys@.len() == genes@.len(),
    ensures
        r is Ok <==> kept_guides(keys@, strings_view(genes@)).len() > 0,
        r is Ok ==> entries_view(r->Ok_0@) == kept_guides(keys@, strings_view(genes@)),
        r is Err ==> r->Err_0 == RraError::NoValidGuides,
{
    let ghost gv = strings_view(genes@);
    let mut out: Vec<GuideEntry> = Vec::new();
    let mut i: usize = 0;
    while i < keys.len()
        invariant
            i <= keys@.len(),
            keys@.len() == genes@.len(),
            gv == strings_view(genes@),
            entries_view(out@) == kept_prefix(keys@, gv, i as int),
        decreases keys@.len() - i,
    {
        if let Some(k) = keys[i] {
            if !genes[i].as_str().is_empty() {
                let gene = genes[i].clone();
                out.push(GuideEntry { gene, key: k, source: i });
                assert(entries_view(out@) =~= kept_prefix(keys@, gv, i + 1));
            }
        }
        i += 1;
    }
    if out.len() == 0 {
        Err(RraError::NoValidGuides)
    } else {
        Ok(out)
    }
}

pub uninterp spec fn trim_of(s: Seq<char>) -> Seq<char>;

/// Relies on `str::trim`: the identifier without its leading and trailing
/// whitespace, which depends on its characters alone.
#[verifier::external_body]
fn trimmed(s: &String) -> (r: String)
    ensures
        r@ == trim_of(s@),
{
    s.trim().to_string()
}

pub open spec fn trimmed_view(v: Seq<String>) -> Seq<Seq<char>> {
    v.map_values(|s: String| trim_of(s@))
}

/// Builds the guide list from order keys (`None` for a non-finite
/// measurement) and raw gene identifiers, trimming each identifier.
pub fn filter_guides(keys: &Vec<Option<i64>>, genes: &Vec<String>) -> (r: Result<
    Vec<GuideEntry>,
    RraError,
>)
    requires
        keys@.len() == genes@.len(),
    ensures
        r is Ok <==> kept_guides(keys@, trimmed_view(genes@)).len() > 0,
        r is Ok ==> entries_view(r->Ok_0@) == kept_guides(keys@, trimmed_view(genes@)),
        r is Err ==> r->Err_0 == RraError::NoValidGuides,
{
    let mut names: Vec<String> = Vec::new();
    let mut i: usize = 0;
    while i < genes.len()
        invariant
            i <= genes@.len(),
            names@.len() == i,
            forall|j: int| 0 <= j < i ==> (#[trigger] names@[j])@ == trim_of(genes@[j]@),
        decreases genes@.len() - i,
    {
        names.push(trimmed(&genes[i]));
        i += 1;
    }
    assert(strings_view(names@) =~= trimmed_view(genes@));
    select_guides(keys, &names)
}

} // verus!
