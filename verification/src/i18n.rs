//! Interface-text lookup: locales as plain association lists, keyed
//! message lookup, and placeholder substitution. The process-wide registry
//! that an application keeps around a single `I18n` value lives outside
//! this crate; the free functions here are its stateless form, behaving as
//! the lookup does before any locale data is installed.

use vstd::prelude::*;

use crate::error::SyncError;
use crate::text::{
    contains_chars, dec_digits, from_chars, lower_seq, lowercase_chars, push_decimal,
    replace_all_chars, replace_all_seq, starts_with_chars, starts_with_seq, str_eq, to_chars,
};

verus! {

/// First-match lookup in an association list of texts.
pub open spec fn lookup(entries: Seq<(Seq<char>, Seq<char>)>, key: Seq<char>) -> Option<
    Seq<char>,
>
    decreases entries.len(),
{
    if entries.len() == 0 {
        None
    } else if entries[0].0 == key {
        Some(entries[0].1)
    } else {
        lookup(entries.drop_first(), key)
    }
}

/// One locale: its message texts by key.
#[derive(Clone, Debug)]
pub struct Locale {
    pub strings: Vec<(String, String)>,
}

/// The view of a locale: its entries as an association list.
pub open spec fn locale_entries(l: Locale) -> Seq<(Seq<char>, Seq<char>)> {
    Seq::new(l.strings@.len(), |i: int| (l.strings@[i].0@, l.strings@[i].1@))
}

impl Locale {
    /// A locale without any messages yet.
    pub fn new() -> (r: Locale)
        ensures
            locale_entries(r).len() == 0,
    {
        let r = Locale { strings: Vec::new() };
        proof {
            assert(locale_entries(r) =~= Seq::<(Seq<char>, Seq<char>)>::empty());
        }
        r
    }

    /// Installs a message so that later lookups of `key` yield `value`;
    /// other keys are unaffected.
    pub fn insert(&mut self, key: String, value: String)
        ensures
            lookup(locale_entries(*final(self)), key@) == Some(value@),
            forall|k: Seq<char>|
                k != key@ ==> #[trigger] lookup(locale_entries(*final(self)), k) == lookup(
                    locale_entries(*old(self)),
                    k,
                ),
    {
        let ghost key_v = key@;
        let ghost value_v = value@;
        let ghost prev = locale_entries(*self);
        self.strings.insert(0, (key, value));
        proof {
            let now = locale_entries(*self);
            assert(now.len() == prev.len() + 1);
            assert(now[0] == (key_v, value_v));
            assert(now.drop_first() =~= prev);
            assert(lookup(now, key_v) == Some(value_v));
        }
    }

    /// The message for `key`, if one is installed.
    pub fn get(&self, key: &str) -> (r: Option<String>)
        ensures
            r matches Some(v) ==> lookup(locale_entries(*self), key@) == Some(v@),
            r is None ==> lookup(locale_entries(*self), key@) is None,
    {
        let ghost entries = locale_entries(*self);
        let mut i: usize = 0;
        proof {
            assert(entries.subrange(0, entries.len() as int) =~= entries);
        }
        while i < self.strings.len()
            invariant
                entries == locale_entries(*self),
                entries.len() == self.strings@.len(),
                i <= entries.len(),
                lookup(entries, key@) == lookup(entries.subrange(i as int, entries.len() as int), key@),
            decreases entries.len() - i,
        {
            let ghost rest = entries.subrange(i as int, entries.len() as int);
            proof {
                assert(rest[0] == entries[i as int]);
                assert(rest.drop_first() =~= entries.subrange(i + 1, entries.len() as int));
            }
            if str_eq(self.strings[i].0.as_str(), key) {
                let v = self.strings[i].1.clone();
                proof {
                    assert(entries[i as int].0 == key@);
                    assert(lookup(rest, key@) == Some(entries[i as int].1));
                }
                return Some(v);
            }
            i = i + 1;
        }
        proof {
            assert(entries.subrange(entries.len() as int, entries.len() as int) =~= Seq::<
                (Seq<char>, Seq<char>),
            >::empty());
        }
        None
    }

    /// The number of installed messages.
    pub fn len(&self) -> (r: usize)
        ensures
            r == locale_entries(*self).len(),
    {
        self.strings.len()
    }
}

/// First-match lookup of a locale by name.
pub open spec fn find_locale(locales: Seq<(String, Locale)>, name: Seq<char>) -> Option<Locale>
    decreases locales.len(),
{
    if locales.len() == 0 {
        None
    } else if locales[0].0@ == name {
        Some(locales[0].1)
    } else {
        find_locale(locales.drop_first(), name)
    }
}

/// The message interface: the active locale's name and the known locales.
#[derive(Clone)]
pub struct I18n {
    pub current_locale: String,
    pub locales: Vec<(String, Locale)>,
}

/// What normalizing a locale identifier yields: the Chinese locale for a
/// Simplified-Chinese identifier, the English locale for English and
/// French ones, nothing otherwise. The comparison folds ASCII case.
pub open spec fn parse_locale_spec(s: Seq<char>) -> Option<Seq<char>> {
    let lower = lower_seq(s);
    if starts_with_seq(lower, "zh"@) && (crate::text::contains_seq(lower, "cn"@)
        || crate::text::contains_seq(lower, "hans"@)) {
        Some("zh-cn"@)
    } else if starts_with_seq(lower, "en"@) {
        Some("en"@)
    } else if starts_with_seq(lower, "fr"@) {
        Some("en"@)
    } else {
        None
    }
}

/// What `t` yields: the message installed for the key in the active
/// locale, or the key itself where none is.
pub open spec fn t_spec(i: I18n, key: Seq<char>) -> Seq<char> {
    match find_locale(i.locales@, i.current_locale@) {
        Some(l) => match lookup(locale_entries(l), key) {
            Some(v) => v,
            None => key,
        },
        None => key,
    }
}

/// The placeholder for argument `i`: its index in braces.
pub open spec fn placeholder(i: nat) -> Seq<char> {
    seq!['{'] + dec_digits(i) + seq!['}']
}

/// The template with placeholders for the first `k` arguments replaced by
/// them, lowest index first.
pub open spec fn substituted(template: Seq<char>, args: Seq<Seq<char>>, k: int) -> Seq<char>
    decreases k,
{
    if k <= 0 {
        template
    } else {
        replace_all_seq(substituted(template, args, k - 1), placeholder((k - 1) as nat), args[k - 1])
    }
}

/// Replaces `{0}`, `{1}`, ... in the template by the arguments, in index
/// order.
pub fn fill_placeholders(template: String, args: &Vec<String>) -> (r: String)
    ensures
        r@ == substituted(template@, args.deep_view(), args.deep_view().len() as int),
{
    let ghost template_v = template@;
    let ghost args_v = args.deep_view();
    let mut acc = to_chars(template.as_str());
    let mut i: usize = 0;
    while i < args.len()
        invariant
            args_v == args.deep_view(),
            args_v.len() == args@.len(),
            i <= args@.len(),
            acc@ == substituted(template_v, args_v, i as int),
        decreases args@.len() - i,
    {
        let mut ph: Vec<char> = Vec::new();
        ph.push('{');
        push_decimal(i, &mut ph);
        ph.push('}');
        proof {
            assert(ph@ =~= placeholder(i as nat));
            assert(args_v[i as int] == args@[i as int]@);
        }
        let arg = to_chars(args[i].as_str());
        acc = replace_all_chars(&acc, &ph, &arg);
        i = i + 1;
    }
    from_chars(&acc)
}

impl I18n {
    /// The built-in locale names, with no messages installed; message
    /// catalogs are the application's to supply.
    fn builtin_locales() -> (r: Vec<(String, Locale)>)
        ensures
            r@.len() == 2,
            r@[0].0@ == "en"@,
            r@[1].0@ == "zh-cn"@,
            find_locale(r@, "en"@) is Some,
            find_locale(r@, "zh-cn"@) is Some,
    {
        let mut r: Vec<(String, Locale)> = Vec::new();
        r.push((String::from_str("en"), Locale::new()));
        r.push((String::from_str("zh-cn"), Locale::new()));
        proof {
            reveal_strlit("en");
            reveal_strlit("zh-cn");
            assert(r@[0].0@ == "en"@);
            assert(r@[1].0@ == "zh-cn"@);
            assert("en"@.len() != "zh-cn"@.len());
            assert(r@[0].0@ != "zh-cn"@);
            assert(r@.drop_first()[0] == r@[1]);
            assert(find_locale(r@, "zh-cn"@) == find_locale(r@.drop_first(), "zh-cn"@));
        }
        r
    }

    /// Builds the interface with the built-in locales and the system's
    /// locale where it is recognized, falling back to English.
    pub fn new() -> (r: Result<I18n, SyncError>)
        ensures
            r is Ok,
            r matches Ok(i) ==> {
                &&& i.current_locale@ == "en"@ || i.current_locale@ == "zh-cn"@
                &&& find_locale(i.locales@, "en"@) is Some
                &&& find_locale(i.locales@, "zh-cn"@) is Some
            },
    {
        let locales = Self::builtin_locales();
        let mut i18n = I18n { current_locale: String::from_str("en"), locales };
        match system_locale() {
            Some(hint) => {
                match Self::parse_locale(hint.as_str()) {
                    Some(name) => {
                        proof {
                            assert(name@ == "zh-cn"@ || name@ == "en"@);
                        }
                        i18n.set_locale(name.as_str());
                    },
                    None => {},
                }
            },
            None => {},
        }
        Ok(i18n)
    }

    /// Builds the interface and switches to the given locale where it is
    /// known.
    pub fn with_locale(locale: &str) -> (r: Result<I18n, SyncError>)
        ensures
            r is Ok,
            r matches Ok(i) ==> {
                &&& find_locale(i.locales@, "en"@) is Some
                &&& find_locale(i.locales@, "zh-cn"@) is Some
                &&& (find_locale(i.locales@, locale@) is Some ==> i.current_locale@ == locale@)
                &&& (find_locale(i.locales@, locale@) is None ==> (i.current_locale@ == "en"@
                    || i.current_locale@ == "zh-cn"@))
            },
    {
        let mut i18n = match Self::new() {
            Ok(i) => i,
            Err(e) => {
                return Err(e);
            },
        };
        i18n.set_locale(locale);
        Ok(i18n)
    }

    /// Switches to the named locale; an unknown name changes nothing.
    pub fn set_locale(&mut self, locale: &str)
        ensures
            final(self).locales == old(self).locales,
            find_locale(old(self).locales@, locale@) is Some ==> final(self).current_locale@
                == locale@,
            find_locale(old(self).locales@, locale@) is None ==> final(self).current_locale
                == old(self).current_locale,
    {
        if find_locale_vec(&self.locales, locale) {
            self.current_locale = String::from_str(locale);
        }
    }

    /// The active locale's name.
    pub fn get_current_locale(&self) -> (r: &str)
        ensures
            r@ == self.current_locale@,
    {
        self.current_locale.as_str()
    }

    /// The names of every known locale, in order.
    pub fn available_locales(&self) -> (r: Vec<String>)
        ensures
            r@.len() == self.locales@.len(),
            forall|i: int|
                0 <= i < r@.len() ==> (#[trigger] r@[i])@ == self.locales@[i].0@,
    {
        let mut names: Vec<String> = Vec::new();
        let mut i: usize = 0;
        while i < self.locales.len()
            invariant
                i <= self.locales@.len(),
                names@.len() == i,
                forall|j: int| 0 <= j < i ==> (#[trigger] names@[j])@ == self.locales@[j].0@,
            decreases self.locales@.len() - i,
        {
            names.push(self.locales[i].0.clone());
            i = i + 1;
        }
        names
    }

    /// The message for `key` in the active locale, or the key itself where
    /// none is installed.
    pub fn t(&self, key: &str) -> (r: String)
        ensures
            r@ == t_spec(*self, key@),
    {
        let ghost locs = self.locales@;
        let mut i: usize = 0;
        proof {
            assert(locs.subrange(0, locs.len() as int) =~= locs);
        }
        while i < self.locales.len()
            invariant
                locs == self.locales@,
                i <= locs.len(),
                find_locale(locs, self.current_locale@) == find_locale(
                    locs.subrange(i as int, locs.len() as int),
                    self.current_locale@,
                ),
            decreases locs.len() - i,
        {
            let ghost rest = locs.subrange(i as int, locs.len() as int);
            proof {
                assert(rest[0] == locs[i as int]);
                assert(rest.drop_first() =~= locs.subrange(i + 1, locs.len() as int));
            }
            if str_eq(self.locales[i].0.as_str(), self.current_locale.as_str()) {
                proof {
                    assert(find_locale(rest, self.current_locale@) == Some(locs[i as int].1));
                }
                let found = self.locales[i].1.get(key);
                return match found {
                    Some(v) => v,
                    None => String::from_str(key),
                };
            }
            i = i + 1;
        }
        proof {
            assert(locs.subrange(locs.len() as int, locs.len() as int) =~= Seq::<
                (String, Locale),
            >::empty());
        }
        String::from_str(key)
    }

    /// The message for `key` with `{0}`, `{1}`, ... replaced by the
    /// arguments, in index order.
    pub fn tf(&self, key: &str, args: &Vec<String>) -> (r: String)
        ensures
            r@ == substituted(t_spec(*self, key@), args.deep_view(), args.deep_view().len() as int),
    {
        let template = self.t(key);
        fill_placeholders(template, args)
    }

    /// True when a locale of that name is known.
    pub fn is_locale_supported(&self, locale: &str) -> (r: bool)
        ensures
            r == (find_locale(self.locales@, locale@) is Some),
    {
        find_locale_vec(&self.locales, locale)
    }

    /// Normalizes a locale identifier as `parse_locale_spec` says.
    pub fn parse_locale(locale_str: &str) -> (r: Option<String>)
        ensures
            r matches Some(v) ==> parse_locale_spec(locale_str@) == Some(v@),
            r is None ==> parse_locale_spec(locale_str@) is None,
    {
        let chars = to_chars(locale_str);
        let lower = lowercase_chars(&chars);
        let zh = to_chars("zh");
        let cn = to_chars("cn");
        let hans = to_chars("hans");
        let en = to_chars("en");
        let fr = to_chars("fr");
        if starts_with_chars(&lower, &zh) && (contains_chars(&lower, &cn) || contains_chars(
            &lower,
            &hans,
        )) {
            Some(String::from_str("zh-cn"))
        } else if starts_with_chars(&lower, &en) {
            Some(String::from_str("en"))
        } else if starts_with_chars(&lower, &fr) {
            Some(String::from_str("en"))
        } else {
            None
        }
    }
}

/// True when the named locale is among `locales`.
fn find_locale_vec(locales: &Vec<(String, Locale)>, name: &str) -> (r: bool)
    ensures
        r == (find_locale(locales@, name@) is Some),
{
    let ghost locs = locales@;
    let mut i: usize = 0;
    proof {
        assert(locs.subrange(0, locs.len() as int) =~= locs);
    }
    while i < locales.len()
        invariant
            locs == locales@,
            i <= locs.len(),
            find_locale(locs, name@) == find_locale(
                locs.subrange(i as int, locs.len() as int),
                name@,
            ),
        decreases locs.len() - i,
    {
        let ghost rest = locs.subrange(i as int, locs.len() as int);
        proof {
            assert(rest[0] == locs[i as int]);
            assert(rest.drop_first() =~= locs.subrange(i + 1, locs.len() as int));
        }
        if str_eq(locales[i].0.as_str(), name) {
            proof {
                assert(find_locale(rest, name@) == Some(locs[i as int].1));
            }
            return true;
        }
        i = i + 1;
    }
    proof {
        assert(locs.subrange(locs.len() as int, locs.len() as int) =~= Seq::<
            (String, Locale),
        >::empty());
    }
    false
}

/// Relies on sys_locale::get_locale: the system's locale identifier, if
/// the platform reports one. Nothing is promised of the result: it depends
/// on the machine and environment.
#[verifier::external_body]
fn system_locale() -> Option<String> {
    sys_locale::get_locale()
}

/// The stateless form of initialization: validates that the built-in
/// locales can be assembled.
pub fn init_i18n() -> (r: Result<(), SyncError>)
    ensures
        r is Ok,
{
    match I18n::new() {
        Ok(_) => Ok(()),
        Err(e) => Err(e),
    }
}

/// The stateless form of initialization with a locale preference.
pub fn init_i18n_with_locale(locale: &str) -> (r: Result<(), SyncError>)
    ensures
        r is Ok,
{
    match I18n::with_locale(locale) {
        Ok(_) => Ok(()),
        Err(e) => Err(e),
    }
}

/// The stateless form keeps no registry, so switching it has no effect.
pub fn set_locale(locale: &str)
{
    let _ = locale;
}

/// Without an installed registry the active locale reads as English.
pub fn get_current_locale() -> (r: String)
    ensures
        r@ == "en"@,
{
    String::from_str("en")
}

/// Without an installed registry only English is offered.
pub fn available_locales() -> (r: Vec<String>)
    ensures
        r@.len() == 1,
        r@[0]@ == "en"@,
{
    let mut v: Vec<String> = Vec::new();
    v.push(String::from_str("en"));
    v
}

/// Without an installed registry no locale counts as supported.
pub fn is_locale_supported(locale: &str) -> (r: bool)
    ensures
        r == false,
{
    let _ = locale;
    false
}

/// Without an installed registry a lookup falls back to the key itself.
pub fn t(key: &str) -> (r: String)
    ensures
        r@ == key@,
{
    String::from_str(key)
}

/// Without an installed registry the key itself serves as the template for
/// placeholder substitution.
pub fn tf(key: &str, args: &Vec<String>) -> (r: String)
    ensures
        r@ == substituted(key@, args.deep_view(), args.deep_view().len() as int),
{
    fill_placeholders(String::from_str(key), args)
}

} // verus!
