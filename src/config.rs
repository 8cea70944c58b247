//! The changelog configuration: raw records as read from the document, and
//! their validated, normalized form.
use crate::text::{lowercase_text, lowercased, trim_text, trimmed};
use vstd::prelude::*;
use vstd::string::StringExecFns;

verus! {

/// Heading level of a category given by `title`.
pub const DEFAULT_CATEGORY_HEADING_LEVEL: u8 = 2;

/// One category record of the document, before validation.
#[derive(Clone, Debug)]
pub struct RawCategory {
    pub title: Option<String>,
    pub h1: Option<String>,
    pub h2: Option<String>,
    pub h3: Option<String>,
    pub labels: Option<Vec<String>>,
    pub label: Option<String>,
}

/// The configuration document, before validation.
#[derive(Clone, Debug)]
pub struct RawConfig {
    pub language: Option<String>,
    pub tag_template: Option<String>,
    pub name_template: Option<String>,
    pub categories: Option<Vec<RawCategory>>,
    pub exclude_labels: Option<Vec<String>>,
    pub change_template: Option<String>,
    pub template: Option<String>,
}

/// A changelog section: its heading and the labels that place a pull request in it.
#[derive(Clone, Debug)]
pub struct ReleaseCategory {
    pub title: String,
    pub heading_level: u8,
    pub labels: Vec<String>,
}

/// The validated configuration.
#[derive(Clone, Debug)]
pub struct ReleaseConfig {
    pub language: Option<String>,
    pub tag_template: Option<String>,
    pub name_template: Option<String>,
    pub categories: Vec<ReleaseCategory>,
    pub exclude_labels: Vec<String>,
    pub change_template: String,
    pub template: Option<String>,
}

/// Why a configuration document was rejected.
#[derive(PartialEq, Eq, Structural, Debug, Clone, Copy)]
pub enum ConfigError {
    /// A category gives none of title, h1, h2, h3.
    MissingHeading,
    /// A category gives more than one of title, h1, h2, h3.
    MultipleHeadings,
}

impl ConfigError {
    pub fn message(&self) -> (r: String)
        ensures
            r@ == (match self {
                ConfigError::MissingHeading => "Category must include one of: title, h1, h2, h3."@,
                ConfigError::MultipleHeadings => "Category must include only one of: title, h1, h2, h3."@,
            }),
    {
        match self {
            ConfigError::MissingHeading => String::from_str("Category must include one of: title, h1, h2, h3."),
            ConfigError::MultipleHeadings => String::from_str(
                "Category must include only one of: title, h1, h2, h3.",
            ),
        }
    }
}

pub open spec fn texts(v: Seq<String>) -> Seq<Seq<char>> {
    v.map_values(|s: String| s@)
}

pub open spec fn opt_text(o: Option<String>) -> Option<Seq<char>> {
    match o {
        Some(s) => Some(s@),
        None => None,
    }
}

/// A label as it is compared: trimmed and lower-cased.
pub open spec fn normal_label(l: Seq<char>) -> Seq<char> {
    lowercased(trimmed(l))
}

/// The labels normalized, the empty ones dropped, in their order.
pub open spec fn normalized(labels: Seq<Seq<char>>) -> Seq<Seq<char>>
    decreases labels.len(),
{
    if labels.len() == 0 {
        Seq::empty()
    } else {
        let prev = normalized(labels.drop_last());
        let l = normal_label(labels.last());
        if l.len() == 0 {
            prev
        } else {
            prev.push(l)
        }
    }
}

/// How many of the heading fields a category record gives.
pub open spec fn heading_count(
    title: Option<String>,
    h1: Option<String>,
    h2: Option<String>,
    h3: Option<String>,
) -> nat {
    (if title is Some { 1nat } else { 0nat }) + (if h1 is Some { 1nat } else { 0nat }) + (if h2
        is Some {
        1nat
    } else {
        0nat
    }) + (if h3 is Some { 1nat } else { 0nat })
}

/// The heading that a record with exactly one heading field gives: its text and level.
pub open spec fn heading_of(
    title: Option<String>,
    h1: Option<String>,
    h2: Option<String>,
    h3: Option<String>,
) -> (Seq<char>, u8) {
    if let Some(t) = title {
        (t@, DEFAULT_CATEGORY_HEADING_LEVEL)
    } else if let Some(t) = h1 {
        (t@, 1u8)
    } else if let Some(t) = h2 {
        (t@, 2u8)
    } else {
        (h3->Some_0@, 3u8)
    }
}

pub open spec fn heading_result(
    title: Option<String>,
    h1: Option<String>,
    h2: Option<String>,
    h3: Option<String>,
) -> Result<(Seq<char>, u8), ConfigError> {
    let n = heading_count(title, h1, h2, h3);
    if n == 0 {
        Err(ConfigError::MissingHeading)
    } else if n > 1 {
        Err(ConfigError::MultipleHeadings)
    } else {
        Ok(heading_of(title, h1, h2, h3))
    }
}

pub open spec fn category_check(c: RawCategory) -> Result<(Seq<char>, u8), ConfigError> {
    heading_result(c.title, c.h1, c.h2, c.h3)
}

/// The labels of a record: its list, then its single label.
pub open spec fn raw_labels(c: RawCategory) -> Seq<Seq<char>> {
    let list = match c.labels {
        Some(v) => texts(v@),
        None => Seq::empty(),
    };
    match c.label {
        Some(l) => list.push(l@),
        None => list,
    }
}

/// The first rejected record among the first `n`, if any.
pub open spec fn first_error(cats: Seq<RawCategory>, n: int) -> Option<ConfigError>
    decreases n,
{
    if n <= 0 {
        None
    } else {
        match first_error(cats, n - 1) {
            Some(e) => Some(e),
            None => match category_check(cats[n - 1]) {
                Err(e) => Some(e),
                Ok(_) => None,
            },
        }
    }
}

pub open spec fn raw_categories(raw: RawConfig) -> Seq<RawCategory> {
    match raw.categories {
        Some(v) => v@,
        None => Seq::empty(),
    }
}

/// A category made from a valid record.
pub open spec fn category_from(c: ReleaseCategory, rc: RawCategory) -> bool {
    &&& category_check(rc) == Ok::<(Seq<char>, u8), ConfigError>((c.title@, c.heading_level))
    &&& texts(c.labels@) == normalized(raw_labels(rc))
}

pub open spec fn trimmed_opt(o: Option<String>) -> Option<Seq<char>> {
    match o {
        Some(s) => Some(trimmed(s@)),
        None => None,
    }
}

/// The line template: the given one trimmed, or `$TITLE` where it is absent or blank.
pub open spec fn change_template_of(o: Option<String>) -> Seq<char> {
    match o {
        Some(s) => if trimmed(s@).len() > 0 {
            trimmed(s@)
        } else {
            "$TITLE"@
        },
        None => "$TITLE"@,
    }
}

/// `cfg` is what a valid `raw` normalizes to.
pub open spec fn config_from(cfg: ReleaseConfig, raw: RawConfig) -> bool {
    &&& opt_text(cfg.language) == match raw.language {
        Some(s) => Some(lowercased(trimmed(s@))),
        None => None,
    }
    &&& opt_text(cfg.tag_template) == trimmed_opt(raw.tag_template)
    &&& opt_text(cfg.name_template) == trimmed_opt(raw.name_template)
    &&& opt_text(cfg.template) == trimmed_opt(raw.template)
    &&& cfg.categories@.len() == raw_categories(raw).len()
    &&& forall|i: int|
        0 <= i < cfg.categories@.len() ==> category_from(
            #[trigger] cfg.categories@[i],
            raw_categories(raw)[i],
        )
    &&& texts(cfg.exclude_labels@) == normalized(
        match raw.exclude_labels {
            Some(v) => texts(v@),
            None => Seq::empty(),
        },
    )
    &&& cfg.change_template@ == change_template_of(raw.change_template)
}

/// Every label trimmed and lower-cased; those left empty are dropped.
pub fn normalize_labels(labels: &Vec<String>) -> (r: Vec<String>)
    ensures
        texts(r@) == normalized(texts(labels@)),
{
    let ghost src = texts(labels@);
    let mut out: Vec<String> = Vec::new();
    let mut i: usize = 0;
    while i < labels.len()
        invariant
            i <= labels@.len(),
            src == texts(labels@),
            texts(out@) == normalized(src.take(i as int)),
        decreases labels@.len() - i,
    {
        let label = lowercase_text(trim_text(labels[i].as_str()));
        proof {
            assert(src.take(i + 1).drop_last() =~= src.take(i as int));
            assert(src.take(i + 1).last() == labels@[i as int]@);
        }
        if !label.as_str().is_empty() {
            out.push(label);
            assert(texts(out@) =~= normalized(src.take(i as int)).push(label@));
        }
        i = i + 1;
    }
    assert(src.take(i as int) =~= src);
    out
}

/// The heading of a category record: exactly one of `title` (level 2), `h1`,
/// `h2`, `h3` must be given.
pub fn resolve_category_heading(
    title: Option<String>,
    h1: Option<String>,
    h2: Option<String>,
    h3: Option<String>,
) -> (r: Result<(String, u8), ConfigError>)
    ensures
        match r {
            Ok((t, level)) => heading_result(title, h1, h2, h3) == Ok::<(Seq<char>, u8), ConfigError>(
                (t@, level),
            ),
            Err(e) => heading_result(title, h1, h2, h3) == Err::<(Seq<char>, u8), ConfigError>(e),
        },
{
    let ghost (t0, a0, b0, c0) = (title, h1, h2, h3);
    let mut found: Option<(String, u8)> = None;
    let mut count: u8 = 0;
    if let Some(value) = title {
        found = Some((value, DEFAULT_CATEGORY_HEADING_LEVEL));
        count = count + 1;
    }
    if let Some(value) = h1 {
        if count == 0 {
            found = Some((value, 1));
        }
        count = count + 1;
    }
    if let Some(value) = h2 {
        if count == 0 {
            found = Some((value, 2));
        }
        count = count + 1;
    }
    if let Some(value) = h3 {
        if count == 0 {
            found = Some((value, 3));
        }
        count = count + 1;
    }
    assert(count == heading_count(t0, a0, b0, c0));
    if count == 0 {
        Err(ConfigError::MissingHeading)
    } else if count > 1 {
        Err(ConfigError::MultipleHeadings)
    } else {
        match found {
            Some(pair) => Ok(pair),
            None => Err(ConfigError::MissingHeading),
        }
    }
}

fn copy_text(o: &Option<String>) -> (r: Option<String>)
    ensures
        r == *o,
{
    match o {
        Some(s) => Some(s.clone()),
        None => None,
    }
}

fn trim_owned(o: Option<String>) -> (r: Option<String>)
    ensures
        opt_text(r) == trimmed_opt(o),
{
    match o {
        Some(s) => Some(String::from_str(trim_text(s.as_str()))),
        None => None,
    }
}

impl ReleaseConfig {
    /// Validates and normalizes a raw configuration. It is rejected with the
    /// error of its first category record that does not give exactly one heading.
    pub fn from_raw(raw: RawConfig) -> (r: Result<ReleaseConfig, ConfigError>)
        ensures
            r is Ok <==> first_error(raw_categories(raw), raw_categories(raw).len() as int) is None,
            r matches Err(e) ==> first_error(raw_categories(raw), raw_categories(raw).len() as int) == Some(e),
            r matches Ok(cfg) ==> config_from(cfg, raw),
    {
        let ghost raw0 = raw;
        let ghost rcs = raw_categories(raw);
        let raw_cats = match raw.categories {
            Some(v) => v,
            None => Vec::new(),
        };
        let mut categories: Vec<ReleaseCategory> = Vec::new();
        let mut i: usize = 0;
        while i < raw_cats.len()
            invariant
                i <= raw_cats@.len(),
                raw_cats@ == rcs,
                rcs == raw_categories(raw0),
                raw == raw0,
                first_error(rcs, i as int) is None,
                categories@.len() == i,
                forall|k: int| 0 <= k < i ==> category_from(#[trigger] categories@[k], rcs[k]),
            decreases raw_cats@.len() - i,
        {
            let rc = &raw_cats[i];
            let heading = resolve_category_heading(
                copy_text(&rc.title),
                copy_text(&rc.h1),
                copy_text(&rc.h2),
                copy_text(&rc.h3),
            );
            match heading {
                Err(e) => {
                    proof {
                        assert(rcs[i as int] == *rc);
                        assert(first_error(rcs, i as int + 1) == Some(e));
                        lemma_first_error_sticks(rcs, i as int + 1, rcs.len() as int);
                        assert(first_error(raw_categories(raw0), raw_categories(raw0).len() as int) == Some(e));
                    }

                    return Err(e);
                },
                Ok((title, heading_level)) => {
                    let mut labels: Vec<String> = Vec::new();
                    if let Some(list) = &rc.labels {
                        let mut j: usize = 0;
                        while j < list.len()
                            invariant
                                j <= list@.len(),
                                texts(labels@) == texts(list@.take(j as int)),
                            decreases list@.len() - j,
                        {
                            let ghost before = labels@;
                            labels.push(list[j].clone());
                            assert(list@.take(j as int + 1) =~= list@.take(j as int).push(list@[j as int]));
                            assert(texts(labels@) =~= texts(before).push(list@[j as int]@));
                            assert(texts(labels@) =~= texts(list@.take(j as int + 1)));
                            j = j + 1;
                        }
                        assert(list@.take(j as int) =~= list@);
                    }
                    if let Some(label) = &rc.label {
                        labels.push(label.clone());
                    }
                    assert(texts(labels@) =~= raw_labels(*rc));
                    let labels = normalize_labels(&labels);
                    categories.push(ReleaseCategory { title, heading_level, labels });
                },
            }
            i = i + 1;
        }
        let exclude = match raw.exclude_labels {
            Some(v) => v,
            None => Vec::new(),
        };
        let exclude_labels = normalize_labels(&exclude);
        let change_template = match raw.change_template {
            Some(t) => {
                let t = trim_text(t.as_str());
                if t.is_empty() {
                    String::from_str("$TITLE")
                } else {
                    String::from_str(t)
                }
            },
            None => String::from_str("$TITLE"),
        };
        let language = match raw.language {
            Some(l) => Some(lowercase_text(trim_text(l.as_str()))),
            None => None,
        };
        Ok(ReleaseConfig {
            language,
            tag_template: trim_owned(raw.tag_template),
            name_template: trim_owned(raw.name_template),
            categories,
            exclude_labels,
            change_template,
            template: trim_owned(raw.template),
        })
    }
}

proof fn lemma_first_error_sticks(cats: Seq<RawCategory>, i: int, n: int)
    requires
        0 <= i <= n,
        first_error(cats, i) is Some,
    ensures
        first_error(cats, n) == first_error(cats, i),
    decreases n - i,
{
    if n > i {
        lemma_first_error_sticks(cats, i, n - 1);
    }
}

} // verus!
