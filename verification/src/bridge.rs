//! The bridge page: a synthesized HTML document that writes the requested
//! locale and theme into browser storage and cookies on the loopback
//! origin, then navigates to the admin bundle.

use vstd::prelude::*;
use crate::strutil::{
    has_prefix, split_on, views_of, str_to_chars, chars_to_string, split_chars, starts_with_str,
    append_chars, append_str, subvec,
};

verus! {

/// The `locale` and `theme` query parameters, scanned left to right with
/// the last occurrence winning.
pub open spec fn bridge_params_scan(
    pieces: Seq<Seq<char>>,
    locale: Seq<char>,
    theme: Seq<char>,
) -> (Seq<char>, Seq<char>)
    decreases pieces.len(),
{
    if pieces.len() == 0 {
        (locale, theme)
    } else if has_prefix(pieces[0], "locale="@) {
        bridge_params_scan(pieces.drop_first(), pieces[0].skip(7), theme)
    } else if has_prefix(pieces[0], "theme="@) {
        bridge_params_scan(pieces.drop_first(), locale, pieces[0].skip(6))
    } else {
        bridge_params_scan(pieces.drop_first(), locale, theme)
    }
}

/// The parameters parsed from the raw query string by a simple `&` split.
pub open spec fn bridge_params_of(query: Seq<char>) -> (Seq<char>, Seq<char>) {
    bridge_params_scan(split_on(query, '&'), Seq::empty(), Seq::empty())
}

/// The `__locale` cookie value for a requested locale: canonical locales
/// map to their lowercase forms, everything else passes through.
pub open spec fn bridge_locale_cookie(locale: Seq<char>) -> Seq<char> {
    if locale == "zh-CN"@ {
        "zh-cn"@
    } else if locale == "en-US"@ {
        "en-us"@
    } else {
        locale
    }
}

/// The bridge document for the given parameters: it seeds browser storage,
/// sets the preference cookies (clearing the theme cookie when the theme is
/// empty), and immediately replaces the location with the admin bundle.
pub open spec fn bridge_html_of(locale: Seq<char>, theme: Seq<char>) -> Seq<char> {
    let lc = bridge_locale_cookie(locale);
    "<!DOCTYPE html>\n<html><head><meta charset=\"utf-8\"><title>Loading\u{2026}</title>\n<script>\ntry {\n  // CUI (umi) language\n  if (\""@
        + locale + "\") {\n    localStorage.setItem(\"umi_locale\", \""@ + locale
        + "\");\n  }\n  // CUI (xgen) theme\n  if (\""@ + theme
        + "\") {\n    localStorage.setItem(\"__theme\", \""@ + theme
        + "\");\n    localStorage.setItem(\"xgen:xgen_theme\", JSON.stringify({type:\"String\",value:\""@
        + theme
        + "\"}));\n  } else {\n    localStorage.removeItem(\"__theme\");\n    localStorage.removeItem(\"xgen:xgen_theme\");\n  }\n  // Browser cookies for SUI server-rendered pages\n  var exp = \"max-age=31536000;path=/;SameSite=Lax\";\n  if (\""@
        + lc + "\") document.cookie = \"__locale="@ + lc + ";\" + exp;\n  if (\""@ + theme
        + "\") document.cookie = \"__theme="@ + theme
        + ";\" + exp;\n  else document.cookie = \"__theme=;max-age=0;path=/\";\n} catch(e) {}\nlocation.replace(\"/__yao_admin_root/\");\n</script>\n</head><body></body></html>"@
}

/// Build the bridge page for a raw query string.
#[verifier::loop_isolation(false)]
pub fn bridge_page(query: &str) -> (r: String)
    ensures
        r@ == bridge_html_of(bridge_params_of(query@).0, bridge_params_of(query@).1),
{
    let chars = str_to_chars(query);
    let pieces = split_chars(&chars, '&');
    let ghost piece_views = views_of(pieces@);
    let np = pieces.len();
    let mut locale: Vec<char> = Vec::new();
    let mut theme: Vec<char> = Vec::new();
    let mut i: usize = 0;
    proof {
        assert(piece_views.subrange(0, np as int) =~= piece_views);
        assert(locale@ =~= Seq::<char>::empty());
        assert(theme@ =~= Seq::<char>::empty());
    }
    while i < np
        invariant
            0 <= i <= np,
            np == pieces@.len(),
            bridge_params_of(query@) == bridge_params_scan(
                piece_views.subrange(i as int, np as int),
                locale@,
                theme@,
            ),
        decreases np - i,
    {
        let ghost psuf = piece_views.subrange(i as int, np as int);
        proof {
            assert(psuf[0] == piece_views[i as int]);
            assert(psuf.drop_first() =~= piece_views.subrange(i + 1, np as int));
        }
        let piece = &pieces[i];
        if starts_with_str(piece, "locale=") {
            proof {
                reveal_strlit("locale=");
            }
            locale = subvec(piece, 7, piece.len());
            assert(locale@ =~= psuf[0].skip(7));
        } else if starts_with_str(piece, "theme=") {
            proof {
                reveal_strlit("theme=");
            }
            theme = subvec(piece, 6, piece.len());
            assert(theme@ =~= psuf[0].skip(6));
        }
        i += 1;
    }
    proof {
        assert(piece_views.subrange(np as int, np as int) =~= Seq::<Seq<char>>::empty());
    }

    let lc: Vec<char> = {
        let zh = crate::strutil::chars_eq_str(&locale, "zh-CN");
        let en = crate::strutil::chars_eq_str(&locale, "en-US");
        if zh {
            str_to_chars("zh-cn")
        } else if en {
            str_to_chars("en-us")
        } else {
            subvec(&locale, 0, locale.len())
        }
    };
    assert(lc@ == bridge_locale_cookie(locale@)) by {
        assert(locale@.subrange(0, locale@.len() as int) =~= locale@);
    }

    let mut out: Vec<char> = Vec::new();
    append_str(&mut out,
        "<!DOCTYPE html>\n<html><head><meta charset=\"utf-8\"><title>Loading\u{2026}</title>\n<script>\ntry {\n  // CUI (umi) language\n  if (\"");
    append_chars(&mut out, &locale);
    append_str(&mut out, "\") {\n    localStorage.setItem(\"umi_locale\", \"");
    append_chars(&mut out, &locale);
    append_str(&mut out, "\");\n  }\n  // CUI (xgen) theme\n  if (\"");
    append_chars(&mut out, &theme);
    append_str(&mut out, "\") {\n    localStorage.setItem(\"__theme\", \"");
    append_chars(&mut out, &theme);
    append_str(&mut out,
        "\");\n    localStorage.setItem(\"xgen:xgen_theme\", JSON.stringify({type:\"String\",value:\"");
    append_chars(&mut out, &theme);
    append_str(&mut out,
        "\"}));\n  } else {\n    localStorage.removeItem(\"__theme\");\n    localStorage.removeItem(\"xgen:xgen_theme\");\n  }\n  // Browser cookies for SUI server-rendered pages\n  var exp = \"max-age=31536000;path=/;SameSite=Lax\";\n  if (\"");
    append_chars(&mut out, &lc);
    append_str(&mut out, "\") document.cookie = \"__locale=");
    append_chars(&mut out, &lc);
    append_str(&mut out, ";\" + exp;\n  if (\"");
    append_chars(&mut out, &theme);
    append_str(&mut out, "\") document.cookie = \"__theme=");
    append_chars(&mut out, &theme);
    append_str(&mut out,
        ";\" + exp;\n  else document.cookie = \"__theme=;max-age=0;path=/\";\n} catch(e) {}\nlocation.replace(\"/__yao_admin_root/\");\n</script>\n</head><body></body></html>");
    assert(out@ =~= bridge_html_of(locale@, theme@));
    chars_to_string(&out)
}

} // verus!
