//! Turning fetched listing bytes into records: optional gzip decompression,
//! text validation, stanza decoding and record mapping.  The transfers
//! themselves happen outside the library; everything here works on bytes
//! already in hand.
use vstd::prelude::*;
use vstd::utf8::{valid_utf8, decode_utf8};
use crate::error::Error;
use crate::records::{
    Package, PackageView, Release, ReleaseView, Source, SourceView, spec_package_of,
    spec_release_of, spec_source_of,
};
use crate::stanza::{decode_stanzas, parse_entries, spec_entries, spec_stanzas};

verus! {

/// Which stage of listing ingestion failed.
pub ghost enum ListErr {
    Decode,
    Parse,
}

/// What decompressing a gzip stream yields; the result is a function of the
/// bytes alone.
pub uninterp spec fn gunzip_of(b: Seq<u8>) -> Seq<u8>;

/// Whether a byte sequence decompresses as a well-formed gzip stream;
/// success, too, is a function of the bytes alone.
pub uninterp spec fn gunzip_ok(b: Seq<u8>) -> bool;

/// Relies on async_compression's GzipDecoder over an in-memory byte slice,
/// driven to completion by futures' block_on and futures_util's read_to_end:
/// decompresses one gzip stream, succeeding or failing on the bytes alone.
#[verifier::external_body]
fn gunzip(data: &Vec<u8>) -> (r: Result<Vec<u8>, Error>)
    ensures
        r is Ok <==> gunzip_ok(data@),
        r is Ok ==> r.unwrap()@ == gunzip_of(data@),
        r is Err ==> r.unwrap_err() is Decode,
{
    let mut decoder = async_compression::futures::bufread::GzipDecoder::new(&data[..]);
    let mut out = Vec::new();
    let res = futures::executor::block_on(
        futures_util::io::AsyncReadExt::read_to_end(&mut decoder, &mut out),
    );
    match res {
        Ok(_) => Ok(out),
        Err(_) => Err(Error::Decode(String::from("not a valid gzip stream"))),
    }
}

/// Relies on String::from_utf8: it accepts exactly the valid UTF-8 byte
/// sequences and returns the string those bytes spell.
#[verifier::external_body]
fn string_from_utf8(data: Vec<u8>) -> (r: Result<String, Error>)
    ensures
        r is Ok <==> valid_utf8(data@),
        r is Ok ==> r.unwrap()@ == decode_utf8(data@),
        r is Err ==> r.unwrap_err() is Decode,
{
    match String::from_utf8(data) {
        Ok(s) => Ok(s),
        Err(_) => Err(Error::Decode(String::from("listing is not valid text"))),
    }
}

/// The source records of a listing text: each stanza's fields mapped, the
/// first malformed line or repeated key failing the whole listing.
pub open spec fn spec_sources_of_stanzas(sts: Seq<Seq<char>>) -> Result<Seq<SourceView>, ListErr>
    decreases sts.len(),
{
    if sts.len() == 0 {
        Result::Ok(Seq::empty())
    } else {
        match spec_entries(sts[0]) {
            Option::None => Result::Err(ListErr::Decode),
            Option::Some(ev) => match spec_source_of(ev) {
                Option::None => Result::Err(ListErr::Parse),
                Option::Some(rv) => match spec_sources_of_stanzas(sts.drop_first()) {
                    Result::Err(e) => Result::Err(e),
                    Result::Ok(rest) => Result::Ok(seq![rv] + rest),
                },
            },
        }
    }
}

pub open spec fn source_views(v: Seq<Source>) -> Seq<SourceView> {
    v.map_values(|s: Source| s@)
}

/// Decode and map a plain (uncompressed) source listing held as text.
pub fn sources_from_text(text: &str) -> (r: Result<Vec<Source>, Error>)
    ensures
        r is Ok <==> spec_sources_of_stanzas(spec_stanzas(text@)) is Ok,
        r is Ok ==> source_views(r.unwrap()@) == spec_sources_of_stanzas(
            spec_stanzas(text@),
        )->Ok_0,
        r is Err ==> (r.unwrap_err() is Decode <==> spec_sources_of_stanzas(spec_stanzas(text@))
            == Result::<Seq<SourceView>, ListErr>::Err(ListErr::Decode)),
        r is Err ==> (r.unwrap_err() is Parse <==> spec_sources_of_stanzas(spec_stanzas(text@))
            == Result::<Seq<SourceView>, ListErr>::Err(ListErr::Parse)),
{
    let stanzas = decode_stanzas(text);
    let ghost sv = crate::stanza::views_of(stanzas@);
    let n = stanzas.len();
    let mut out: Vec<Source> = Vec::new();
    let mut i: usize = 0;
    proof {
        assert(sv.skip(0) =~= sv);
        assert(source_views(out@) =~= Seq::<SourceView>::empty());
    }
    while i < n
        invariant
            i <= n,
            n == stanzas@.len(),
            sv == crate::stanza::views_of(stanzas@),
            sv == spec_stanzas(text@),
            spec_sources_of_stanzas(sv) == (match spec_sources_of_stanzas(sv.skip(i as int)) {
                Result::<Seq<SourceView>, ListErr>::Ok(rest) => Result::<
                    Seq<SourceView>,
                    ListErr,
                >::Ok(source_views(out@) + rest),
                Result::<Seq<SourceView>, ListErr>::Err(e) => Result::<
                    Seq<SourceView>,
                    ListErr,
                >::Err(e),
            }),
        decreases n - i,
    {
        let ghost out0 = source_views(out@);
        let ghost i0 = i as int;
        proof {
            assert(sv.skip(i0)[0] == sv[i0]);
            assert(sv.skip(i0).drop_first() =~= sv.skip(i0 + 1));
        }
        let st = &stanzas[i];
        let entries = match parse_entries(st.as_str()) {
            Result::Ok(es) => es,
            Result::Err(e) => {
                return Err(e);
            },
        };
        let rec = match Source::from_entries(&entries) {
            Result::Ok(rec) => rec,
            Result::Err(e) => {
                return Err(e);
            },
        };
        out.push(rec);
        proof {
            assert(source_views(out@) =~= out0.push(rec@));
            match spec_sources_of_stanzas(sv.skip(i0 + 1)) {
                Result::Ok(rest) => {
                    assert(out0.push(rec@) + rest =~= out0 + (seq![rec@] + rest));
                },
                Result::Err(_) => {},
            }
        }
        i = i + 1;
    }
    proof {
        assert(sv.skip(n as int) =~= Seq::<Seq<char>>::empty());
        assert(source_views(out@) + Seq::<SourceView>::empty() =~= source_views(out@));
    }
    Ok(out)
}

/// The release manifests of a listing text.
pub open spec fn spec_releases_of_stanzas(sts: Seq<Seq<char>>) -> Result<
    Seq<ReleaseView>,
    ListErr,
>
    decreases sts.len(),
{
    if sts.len() == 0 {
        Result::Ok(Seq::empty())
    } else {
        match spec_entries(sts[0]) {
            Option::None => Result::Err(ListErr::Decode),
            Option::Some(ev) => match spec_release_of(ev) {
                Option::None => Result::Err(ListErr::Parse),
                Option::Some(rv) => match spec_releases_of_stanzas(sts.drop_first()) {
                    Result::Err(e) => Result::Err(e),
                    Result::Ok(rest) => Result::Ok(seq![rv] + rest),
                },
            },
        }
    }
}

pub open spec fn release_views(v: Seq<Release>) -> Seq<ReleaseView> {
    v.map_values(|s: Release| s@)
}

/// Decode and map a release listing held as text.
pub fn releases_from_text(text: &str) -> (r: Result<Vec<Release>, Error>)
    ensures
        r is Ok <==> spec_releases_of_stanzas(spec_stanzas(text@)) is Ok,
        r is Ok ==> release_views(r.unwrap()@) == spec_releases_of_stanzas(
            spec_stanzas(text@),
        )->Ok_0,
        r is Err ==> (r.unwrap_err() is Decode <==> spec_releases_of_stanzas(
            spec_stanzas(text@),
        ) == Result::<Seq<ReleaseView>, ListErr>::Err(ListErr::Decode)),
        r is Err ==> (r.unwrap_err() is Parse <==> spec_releases_of_stanzas(
            spec_stanzas(text@),
        ) == Result::<Seq<ReleaseView>, ListErr>::Err(ListErr::Parse)),
{
    let stanzas = decode_stanzas(text);
    let ghost sv = crate::stanza::views_of(stanzas@);
    let n = stanzas.len();
    let mut out: Vec<Release> = Vec::new();
    let mut i: usize = 0;
    proof {
        assert(sv.skip(0) =~= sv);
        assert(release_views(out@) =~= Seq::<ReleaseView>::empty());
    }
    while i < n
        invariant
            i <= n,
            n == stanzas@.len(),
            sv == crate::stanza::views_of(stanzas@),
            sv == spec_stanzas(text@),
            spec_releases_of_stanzas(sv) == (match spec_releases_of_stanzas(sv.skip(i as int)) {
                Result::<Seq<ReleaseView>, ListErr>::Ok(rest) => Result::<
                    Seq<ReleaseView>,
                    ListErr,
                >::Ok(release_views(out@) + rest),
                Result::<Seq<ReleaseView>, ListErr>::Err(e) => Result::<
                    Seq<ReleaseView>,
                    ListErr,
                >::Err(e),
            }),
        decreases n - i,
    {
        let ghost out0 = release_views(out@);
        let ghost i0 = i as int;
        proof {
            assert(sv.skip(i0)[0] == sv[i0]);
            assert(sv.skip(i0).drop_first() =~= sv.skip(i0 + 1));
        }
        let st = &stanzas[i];
        let entries = match parse_entries(st.as_str()) {
            Result::Ok(es) => es,
            Result::Err(e) => {
                return Err(e);
            },
        };
        let rec = match Release::from_entries(&entries) {
            Result::Ok(rec) => rec,
            Result::Err(e) => {
                return Err(e);
            },
        };
        out.push(rec);
        proof {
            assert(release_views(out@) =~= out0.push(rec@));
            match spec_releases_of_stanzas(sv.skip(i0 + 1)) {
                Result::Ok(rest) => {
                    assert(out0.push(rec@) + rest =~= out0 + (seq![rec@] + rest));
                },
                Result::Err(_) => {},
            }
        }
        i = i + 1;
    }
    proof {
        assert(sv.skip(n as int) =~= Seq::<Seq<char>>::empty());
        assert(release_views(out@) + Seq::<ReleaseView>::empty() =~= release_views(out@));
    }
    Ok(out)
}

/// The binary package records of a listing text.
pub open spec fn spec_packages_of_stanzas(sts: Seq<Seq<char>>) -> Result<
    Seq<PackageView>,
    ListErr,
>
    decreases sts.len(),
{
    if sts.len() == 0 {
        Result::Ok(Seq::empty())
    } else {
        match spec_entries(sts[0]) {
            Option::None => Result::Err(ListErr::Decode),
            Option::Some(ev) => match spec_package_of(ev) {
                Option::None => Result::Err(ListErr::Parse),
                Option::Some(rv) => match spec_packages_of_stanzas(sts.drop_first()) {
                    Result::Err(e) => Result::Err(e),
                    Result::Ok(rest) => Result::Ok(seq![rv] + rest),
                },
            },
        }
    }
}

pub open spec fn package_views(v: Seq<Package>) -> Seq<PackageView> {
    v.map_values(|s: Package| s@)
}

/// Decode and map a binary package listing held as text.
pub fn packages_from_text(text: &str) -> (r: Result<Vec<Package>, Error>)
    ensures
        r is Ok <==> spec_packages_of_stanzas(spec_stanzas(text@)) is Ok,
        r is Ok ==> package_views(r.unwrap()@) == spec_packages_of_stanzas(
            spec_stanzas(text@),
        )->Ok_0,
        r is Err ==> (r.unwrap_err() is Decode <==> spec_packages_of_stanzas(
            spec_stanzas(text@),
        ) == Result::<Seq<PackageView>, ListErr>::Err(ListErr::Decode)),
        r is Err ==> (r.unwrap_err() is Parse <==> spec_packages_of_stanzas(
            spec_stanzas(text@),
        ) == Result::<Seq<PackageView>, ListErr>::Err(ListErr::Parse)),
{
    let stanzas = decode_stanzas(text);
    let ghost sv = crate::stanza::views_of(stanzas@);
    let n = stanzas.len();
    let mut out: Vec<Package> = Vec::new();
    let mut i: usize = 0;
    proof {
        assert(sv.skip(0) =~= sv);
        assert(package_views(out@) =~= Seq::<PackageView>::empty());
    }
    while i < n
        invariant
            i <= n,
            n == stanzas@.len(),
            sv == crate::stanza::views_of(stanzas@),
            sv == spec_stanzas(text@),
            spec_packages_of_stanzas(sv) == (match spec_packages_of_stanzas(sv.skip(i as int)) {
                Result::<Seq<PackageView>, ListErr>::Ok(rest) => Result::<
                    Seq<PackageView>,
                    ListErr,
                >::Ok(package_views(out@) + rest),
                Result::<Seq<PackageView>, ListErr>::Err(e) => Result::<
                    Seq<PackageView>,
                    ListErr,
                >::Err(e),
            }),
        decreases n - i,
    {
        let ghost out0 = package_views(out@);
        let ghost i0 = i as int;
        proof {
            assert(sv.skip(i0)[0] == sv[i0]);
            assert(sv.skip(i0).drop_first() =~= sv.skip(i0 + 1));
        }
        let st = &stanzas[i];
        let entries = match parse_entries(st.as_str()) {
            Result::Ok(es) => es,
            Result::Err(e) => {
                return Err(e);
            },
        };
        let rec = match Package::from_entries(&entries) {
            Result::Ok(rec) => rec,
            Result::Err(e) => {
                return Err(e);
            },
        };
        out.push(rec);
        proof {
            assert(package_views(out@) =~= out0.push(rec@));
            match spec_packages_of_stanzas(sv.skip(i0 + 1)) {
                Result::Ok(rest) => {
                    assert(out0.push(rec@) + rest =~= out0 + (seq![rec@] + rest));
                },
                Result::Err(_) => {},
            }
        }
        i = i + 1;
    }
    proof {
        assert(sv.skip(n as int) =~= Seq::<Seq<char>>::empty());
        assert(package_views(out@) + Seq::<PackageView>::empty() =~= package_views(out@));
    }
    Ok(out)
}

/// Decode and map a release listing fetched as plain bytes.
pub fn releases_from_bytes(data: Vec<u8>) -> (r: Result<Vec<Release>, Error>)
    ensures
        r is Ok <==> valid_utf8(data@) && spec_releases_of_stanzas(
            spec_stanzas(decode_utf8(data@)),
        ) is Ok,
        r is Ok ==> release_views(r.unwrap()@) == spec_releases_of_stanzas(
            spec_stanzas(decode_utf8(data@)),
        )->Ok_0,
        r is Err ==> (r.unwrap_err() is Parse <==> valid_utf8(data@)
            && spec_releases_of_stanzas(spec_stanzas(decode_utf8(data@))) == Result::<
            Seq<ReleaseView>,
            ListErr,
        >::Err(ListErr::Parse)),
        r is Err ==> (r.unwrap_err() is Decode <==> !valid_utf8(data@)
            || spec_releases_of_stanzas(spec_stanzas(decode_utf8(data@))) == Result::<
            Seq<ReleaseView>,
            ListErr,
        >::Err(ListErr::Decode)),
{
    let text = string_from_utf8(data)?;
    releases_from_text(text.as_str())
}

/// Decode and map a source listing fetched as plain bytes.
pub fn sources_from_bytes(data: Vec<u8>) -> (r: Result<Vec<Source>, Error>)
    ensures
        r is Ok <==> valid_utf8(data@) && spec_sources_of_stanzas(
            spec_stanzas(decode_utf8(data@)),
        ) is Ok,
        r is Ok ==> source_views(r.unwrap()@) == spec_sources_of_stanzas(
            spec_stanzas(decode_utf8(data@)),
        )->Ok_0,
        r is Err ==> (r.unwrap_err() is Parse <==> valid_utf8(data@)
            && spec_sources_of_stanzas(spec_stanzas(decode_utf8(data@))) == Result::<
            Seq<SourceView>,
            ListErr,
        >::Err(ListErr::Parse)),
        r is Err ==> (r.unwrap_err() is Decode <==> !valid_utf8(data@)
            || spec_sources_of_stanzas(spec_stanzas(decode_utf8(data@))) == Result::<
            Seq<SourceView>,
            ListErr,
        >::Err(ListErr::Decode)),
{
    let text = string_from_utf8(data)?;
    sources_from_text(text.as_str())
}

/// Decode and map a binary package listing fetched as plain bytes.
pub fn packages_from_bytes(data: Vec<u8>) -> (r: Result<Vec<Package>, Error>)
    ensures
        r is Ok <==> valid_utf8(data@) && spec_packages_of_stanzas(
            spec_stanzas(decode_utf8(data@)),
        ) is Ok,
        r is Ok ==> package_views(r.unwrap()@) == spec_packages_of_stanzas(
            spec_stanzas(decode_utf8(data@)),
        )->Ok_0,
        r is Err ==> (r.unwrap_err() is Parse <==> valid_utf8(data@)
            && spec_packages_of_stanzas(spec_stanzas(decode_utf8(data@))) == Result::<
            Seq<PackageView>,
            ListErr,
        >::Err(ListErr::Parse)),
        r is Err ==> (r.unwrap_err() is Decode <==> !valid_utf8(data@)
            || spec_packages_of_stanzas(spec_stanzas(decode_utf8(data@))) == Result::<
            Seq<PackageView>,
            ListErr,
        >::Err(ListErr::Decode)),
{
    let text = string_from_utf8(data)?;
    packages_from_text(text.as_str())
}

/// Decompress, decode and map a gzip-compressed source listing.  The fetch
/// succeeds exactly when the bytes are a well-formed gzip stream whose
/// contents decode as a well-formed listing.
pub fn sources_from_gzip_bytes(data: &Vec<u8>) -> (r: Result<Vec<Source>, Error>)
    ensures
        r is Ok <==> gunzip_ok(data@) && valid_utf8(gunzip_of(data@)) && spec_sources_of_stanzas(
            spec_stanzas(decode_utf8(gunzip_of(data@))),
        ) is Ok,
        r is Ok ==> source_views(r.unwrap()@) == spec_sources_of_stanzas(
            spec_stanzas(decode_utf8(gunzip_of(data@))),
        )->Ok_0,
        r is Err ==> (r.unwrap_err() is Parse <==> gunzip_ok(data@) && valid_utf8(
            gunzip_of(data@),
        ) && spec_sources_of_stanzas(spec_stanzas(decode_utf8(gunzip_of(data@)))) == Result::<
            Seq<SourceView>,
            ListErr,
        >::Err(ListErr::Parse)),
        r is Err ==> (r.unwrap_err() is Decode <==> !gunzip_ok(data@) || !valid_utf8(
            gunzip_of(data@),
        ) || spec_sources_of_stanzas(spec_stanzas(decode_utf8(gunzip_of(data@)))) == Result::<
            Seq<SourceView>,
            ListErr,
        >::Err(ListErr::Decode)),
{
    let bytes = match gunzip(data) {
        Result::Ok(b) => b,
        Result::Err(e) => {
            return Err(e);
        },
    };
    sources_from_bytes(bytes)
}

/// Decompress, decode and map a gzip-compressed binary package listing.
pub fn packages_from_gzip_bytes(data: &Vec<u8>) -> (r: Result<Vec<Package>, Error>)
    ensures
        r is Ok <==> gunzip_ok(data@) && valid_utf8(gunzip_of(data@)) && spec_packages_of_stanzas(
            spec_stanzas(decode_utf8(gunzip_of(data@))),
        ) is Ok,
        r is Ok ==> package_views(r.unwrap()@) == spec_packages_of_stanzas(
            spec_stanzas(decode_utf8(gunzip_of(data@))),
        )->Ok_0,
        r is Err ==> (r.unwrap_err() is Parse <==> gunzip_ok(data@) && valid_utf8(
            gunzip_of(data@),
        ) && spec_packages_of_stanzas(spec_stanzas(decode_utf8(gunzip_of(data@)))) == Result::<
            Seq<PackageView>,
            ListErr,
        >::Err(ListErr::Parse)),
        r is Err ==> (r.unwrap_err() is Decode <==> !gunzip_ok(data@) || !valid_utf8(
            gunzip_of(data@),
        ) || spec_packages_of_stanzas(spec_stanzas(decode_utf8(gunzip_of(data@)))) == Result::<
            Seq<PackageView>,
            ListErr,
        >::Err(ListErr::Decode)),
{
    let bytes = match gunzip(data) {
        Result::Ok(b) => b,
        Result::Err(e) => {
            return Err(e);
        },
    };
    packages_from_bytes(bytes)
}

} // verus!
