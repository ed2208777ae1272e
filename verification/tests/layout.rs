use blitz_dom::net::Resource;
use blitz_dom::{BaseDocument, DocumentConfig, NodeData};
use blitz_html::HtmlDocument;
use blitz_traits::net::Bytes;
use blitz_traits::shell::{ColorScheme, Viewport};
use omaread::book::TocEntry;
use omaread::cfi;
use omaread::chapter::{node_at, node_containing_text, paginate_dom};
use omaread::db::{BookRow, Sort};
use omaread::dom::{
    ancestor_attr, char_at, element_rect, highlight_bytes, indexed_tops, node_origin, node_rect, node_top,
    Dom, Element, Inline, LineBox, Node,
};
use omaread::grid::{CARD_H, GAP};
use omaread::paginate::Pages;
use omaread::places::{note_at, restore_position, save_position};
use omaread::screen::{probes, visible_cards};
use omaread::style::{ReadingStyle, Theme, GUTTER_EM, MEASURE_EM};

fn milli(x: f32) -> i64 {
    (x * 1000.0).round() as i64
}

/// A face with one glyph width and no outlines, under the name the stylesheets
/// ask for: half an em wide, an em high.
fn face() -> Vec<u8> {
    const GLYPHS: u16 = 353;
    let be16 = |v: &mut Vec<u8>, n: u16| v.extend(n.to_be_bytes());
    let be32 = |v: &mut Vec<u8>, n: u32| v.extend(n.to_be_bytes());

    let mut cmap = Vec::new();
    for n in [0u16, 1, 3, 10] {
        be16(&mut cmap, n);
    }
    be32(&mut cmap, 12);
    be16(&mut cmap, 12);
    be16(&mut cmap, 0);
    for n in [28u32, 0, 1, 0x20, 0x17f, 1] {
        be32(&mut cmap, n);
    }

    let mut head = Vec::new();
    for n in [0x0001_0000u32, 0x0001_0000, 0, 0x5f0f_3cf5] {
        be32(&mut head, n);
    }
    be16(&mut head, 0);
    be16(&mut head, 1000);
    head.resize(54, 0);

    let mut hhea = Vec::new();
    be32(&mut hhea, 0x0001_0000);
    for n in [800u16, (-200i16) as u16, 0, 500] {
        be16(&mut hhea, n);
    }
    hhea.resize(34, 0);
    be16(&mut hhea, 1);

    let mut hmtx = Vec::new();
    be16(&mut hmtx, 500);
    hmtx.resize(2 + 2 * GLYPHS as usize, 0);

    let mut maxp = Vec::new();
    be32(&mut maxp, 0x0000_5000);
    be16(&mut maxp, GLYPHS);

    let text: Vec<u8> = "Literata".encode_utf16().flat_map(|u| u.to_be_bytes()).collect();
    let mut name = Vec::new();
    for n in [0u16, 1, 18, 3, 1, 0x409, 1, text.len() as u16, 0] {
        be16(&mut name, n);
    }
    name.extend(text);

    let tables: [(&[u8], Vec<u8>); 6] = [
        (b"cmap", cmap),
        (b"head", head),
        (b"hhea", hhea),
        (b"hmtx", hmtx),
        (b"maxp", maxp),
        (b"name", name),
    ];
    let mut font = Vec::new();
    be32(&mut font, 0x0001_0000);
    for n in [tables.len() as u16, 64, 2, 32] {
        be16(&mut font, n);
    }
    let mut at = 12 + 16 * tables.len();
    for (tag, data) in &tables {
        font.extend(*tag);
        be32(&mut font, 0);
        be32(&mut font, at as u32);
        be32(&mut font, data.len() as u32);
        at += (data.len() + 3) / 4 * 4;
    }
    for (_, data) in tables {
        font.extend(data);
        font.resize((font.len() + 3) / 4 * 4, 0);
    }
    font
}

fn lay_out(html: &str, ua: String, width: u32, height: u32) -> HtmlDocument {
    let mut doc = HtmlDocument::from_html(
        html,
        DocumentConfig {
            viewport: Some(Viewport::new(width, height, 1.0, ColorScheme::Light)),
            base_url: Some(omaread::net::ORIGIN.to_string()),
            ua_stylesheets: Some(vec![ua]),
            ..Default::default()
        },
    );
    doc.load_resource(Resource::Font(Bytes::from(face())));
    doc.resolve(0.0);
    doc
}

fn walk(base: &BaseDocument, id: usize, parent: Option<usize>, out: &mut Vec<Node>, ids: &mut Vec<usize>) {
    let Some(node) = base.get_node(id) else { return };
    let l = &node.final_layout;
    let element = match &node.data {
        NodeData::Element(el) => Some(Element {
            tag: el.name.local.as_ref().to_string(),
            attrs: el
                .attrs
                .iter()
                .map(|a| (a.name.local.as_ref().to_string(), a.value.to_string()))
                .collect(),
            inline: el.inline_layout_data.as_ref().map(|tl| Inline {
                text: tl.text.clone(),
                lines: tl
                    .layout
                    .lines()
                    .map(|line| LineBox {
                        top: milli(line.metrics().min_coord),
                        bottom: milli(line.metrics().max_coord),
                        start: line.text_range().start,
                    })
                    .collect(),
            }),
        }),
        _ => None,
    };
    let at = out.len();
    out.push(Node {
        parent,
        element,
        x: milli(l.location.x),
        y: milli(l.location.y),
        width: milli(l.size.width),
        height: milli(l.size.height),
        inset_x: milli(l.border.left + l.padding.left),
        inset_y: milli(l.border.top + l.padding.top),
    });
    ids.push(id);
    for child in &node.children {
        walk(base, *child, Some(at), out, ids);
    }
}

fn dom_of(base: &BaseDocument) -> (Dom, Vec<usize>) {
    let (mut nodes, mut ids) = (Vec::new(), Vec::new());
    walk(base, 0, None, &mut nodes, &mut ids);
    (Dom::new(nodes).expect("a laid-out document is a tree"), ids)
}

fn document(html: &str, ua: String, width: u32, height: u32, page_height: f32) -> (Dom, Pages) {
    let doc = lay_out(html, ua, width, height);
    let (dom, _) = dom_of(&doc);
    let pages = paginate_dom(&dom, milli(page_height));
    (dom, pages)
}

fn fragment(body: &str, style: &ReadingStyle, width: u32, height: u32) -> Dom {
    let html = format!("<html><body>{body}</body></html>");
    dom_of(&lay_out(&html, style.stylesheet(), width, height)).0
}

fn style() -> ReadingStyle {
    ReadingStyle { theme: Theme::White, scale: 1000 }
}

fn row(title: &str, author: &str) -> BookRow {
    BookRow {
        hash: "abc123".into(),
        path: "/x.epub".into(),
        title: title.into(),
        author: author.into(),
        ..Default::default()
    }
}

fn grid(rows: &[BookRow]) -> String {
    omaread::grid::html(rows, "", Sort::Recent, &[], None, 0..rows.len())
}

fn grid_sheet() -> String {
    omaread::grid::stylesheet("#fff", "#111", "#888", "#eee")
}

#[test]
fn the_grid_lays_out() {
    let rows: Vec<BookRow> = (0..40)
        .map(|i| {
            let mut r = row(&format!("Libro {i}"), "Autor");
            r.hash = format!("h{i}");
            r
        })
        .collect();
    let (dom, _) = document(&grid(&rows), grid_sheet(), 1200, 900, 800.0);
    assert!(dom.content_height() > milli(100.0), "grid has no height");
    assert!(dom.text_len() > 0, "grid has no text");
}

#[test]
fn pages_hold_whole_rows_of_equal_cards() {
    let rows: Vec<BookRow> = (0..60)
        .map(|i| {
            let long = "Un titulo interminable que ocupaba cinco lineas                             enteras y empujaba la fila siguiente fuera de la pagina";
            let mut r = row(if i % 3 == 0 { "Corto" } else { long }, "Autor");
            r.hash = format!("h{i}");
            r
        })
        .collect();
    let (dom, pages) = document(&grid(&rows), grid_sheet(), 1896, 2092, 1992.0);

    let mut tops: Vec<i64> = indexed_tops(&dom).into_iter().map(|(_, y)| y).collect();
    tops.sort();
    tops.dedup_by(|a, b| (*a - *b).abs() < milli(1.0));

    for pair in tops.windows(2) {
        assert!(
            (pair[1] - pair[0] - milli((CARD_H + GAP) as f32)).abs() < milli(1.0),
            "rows are not evenly pitched: {tops:?}"
        );
    }

    for &t in &pages.tops {
        let split = tops
            .iter()
            .find(|&&y| t > y + milli(1.0) && t < y + milli(CARD_H as f32) - milli(1.0));
        assert!(split.is_none(), "page at {t} cuts the card at {split:?}");
    }
    assert!(pages.count() > 1, "the fixture must span several pages");
}

#[test]
fn the_laid_out_row_holds_what_per_row_says() {
    let rows: Vec<BookRow> = (0..40)
        .map(|i| BookRow { hash: format!("h{i}"), title: format!("L{i}"), ..Default::default() })
        .collect();

    for width in [900u32, 1200, 1517, 2000, 3840] {
        let (dom, _) = document(&grid(&rows), grid_sheet(), width, 2400, 2300.0);
        let tops = indexed_tops(&dom);
        let first = tops.first().map(|&(_, y)| y).unwrap_or(0);
        let in_row = tops.iter().filter(|&&(_, y)| (y - first).abs() < milli(1.0)).count();

        assert_eq!(
            in_row,
            omaread::grid::per_row(milli(width as f32)),
            "at {width}px the layout put {in_row} in a row"
        );
    }
}

#[test]
fn a_taller_window_reveals_cards_the_covers_did_not_cover() {
    let rows: Vec<BookRow> = (0..40)
        .map(|i| BookRow {
            hash: format!("h{i}"),
            title: format!("Libro {i}"),
            author: "Autor".into(),
            has_cover: true,
            ..Default::default()
        })
        .collect();

    let short = 620.0_f32;
    let tall = 1400.0_f32;
    let (dom, pages) = document(&grid(&rows), grid_sheet(), 1500, short as u32, short - 100.0);
    let before = visible_cards(&dom, &pages, 0);
    let (dom, pages) = document(&grid(&rows), grid_sheet(), 1500, tall as u32, tall - 100.0);
    let after = visible_cards(&dom, &pages, 0);

    assert!(
        after.1 > before.1,
        "a taller window should show more cards: {before:?} -> {after:?}"
    );
}

#[test]
fn one_column_text_is_centred() {
    let st = style();
    let column = (MEASURE_EM + 2 * GUTTER_EM) * st.font_px() / 1000;

    for width in [900u32, 1200, 1600, 2400, 3840] {
        let dom = fragment("<p>Un texto cualquiera para medir.</p>", &st, width, 1000);
        let r = element_rect(&dom, "body").expect("body has a layout box");

        assert!(
            (r.width - column).abs() < milli(1.0),
            "at {width}px the column should be {column} wide, got {}",
            r.width
        );

        let left = r.x;
        let right = milli(width as f32) - (r.x + r.width);
        assert!(
            (left - right).abs() < milli(1.0),
            "at {width}px the column is not centred: {left} left, {right} right"
        );
        assert!(left > 0, "at {width}px the column is flush against the edge");
    }
}

#[test]
fn narrow_windows_keep_their_gutters() {
    let st = style();
    let dom = fragment("<p>Estrecho.</p>", &st, 400, 1000);
    let b = element_rect(&dom, "body").unwrap();
    let p = element_rect(&dom, "p").unwrap();

    assert!(
        (b.width - milli(400.0)).abs() < milli(1.0),
        "body should fill a narrow window, got {}",
        b.width
    );
    let gutter = GUTTER_EM * st.font_px() / 1000;
    assert!(
        (p.x - b.x - gutter).abs() < milli(1.0),
        "left gutter should be {gutter}, text starts {} in",
        p.x - b.x
    );
    assert!(
        (b.x + b.width - (p.x + p.width) - gutter).abs() < milli(1.0),
        "right gutter should be {gutter}"
    );
}

#[test]
fn the_contents_lay_out() {
    let e: Vec<TocEntry> = (0..60)
        .map(|i| TocEntry {
            label: format!("Capítulo {i}"),
            depth: i % 3,
            spine: i,
            fragment: None,
            find: None,
            cfi: None,
        })
        .collect();
    let ua = omaread::toc::stylesheet("#fff", "#111", "#888", "#eee");
    let (dom, pages) =
        document(&omaread::toc::html(&e, "Contents", "Un libro", 7, 7), ua, 1200, 900, 800.0);
    assert!(dom.content_height() > milli(100.0), "contents have no height");
    assert!(pages.count() > 1, "60 entries should not fit one page");
}

#[test]
fn every_hud_control_is_hittable() {
    let (w, h) = (1200u32, 900u32);
    let doc = lay_out(
        &omaread::hud::html_with_back(
            "Un libro",
            "page 8 of 19",
            2,
            false,
            milli(h as f32),
            Some("Back to page 7"),
        ),
        omaread::hud::stylesheet("#111", "#888", "#eee"),
        w,
        h,
    );
    let (dom, ids) = dom_of(&doc);

    let mut found: Vec<String> = Vec::new();
    for y in [33.0_f32, h as f32 - 33.0] {
        for x in (0..w).step_by(4) {
            if let Some(hit) = doc.hit(x as f32, y) {
                let at = ids.iter().position(|&id| id == hit.node_id);
                if let Some(what) = at.and_then(|i| ancestor_attr(&dom, i, "data-hud")) {
                    found.push(what);
                }
            }
        }
    }

    for want in ["bookmark", "contents", "highlight", "smaller", "bigger", "columns", "readout"] {
        assert!(
            found.iter().any(|f| f == want),
            "{want} is drawn but not clickable: {found:?}"
        );
    }
}

#[test]
fn a_search_hit_locates_its_text() {
    let st = style();
    let dom = fragment(
        "<p id=\"a\">Nada aquí.</p>\
         <p id=\"b\">Sin embargo, la resonancia de la <em>tipografía</em> siempre.</p>",
        &st,
        900,
        1000,
    );

    let hit = node_containing_text(&dom, "resonancia").expect("plain word");
    let top = node_top(&dom, hit).expect("hit has a position");
    assert!(top > 0, "the hit is in the second paragraph, not the first");

    assert_eq!(node_containing_text(&dom, "RESONANCIA"), Some(hit));
    assert_eq!(node_containing_text(&dom, "tipografia"), Some(hit));

    assert!(node_containing_text(&dom, "de la tipografia siempre").is_some());

    assert_eq!(node_containing_text(&dom, "   "), None);
    assert_eq!(node_containing_text(&dom, "zzzznotaword"), None);
}

#[test]
fn a_search_hit_locates_a_word_whose_breaks_are_marked() {
    let html = "<p>Nada aqu\u{ed}.</p><p>la re\u{ad}so\u{ad}nan\u{ad}cia de la ti\u{ad}po\u{ad}gra\u{ad}f\u{ed}a</p>";
    let dom = fragment(html, &style(), 900, 1000);
    let hit = node_containing_text(&dom, "resonancia").expect("a marked word");
    assert!(node_top(&dom, hit).expect("hit has a position") > 0);
    assert_eq!(node_containing_text(&dom, "resonancia de la tipografia"), Some(hit));
    assert_eq!(node_containing_text(&dom, "re so nan cia"), Some(hit));
}

/// Where `len` characters of a node's text from `start` are laid out: the top of
/// the first of their boxes, in the flow.
fn char_top(doc: &HtmlDocument, dom: &Dom, ids: &[usize], node: usize, start: usize, len: usize) -> Option<i64> {
    let (b0, b1) = highlight_bytes(dom, node, start, len)?;
    let el = doc.get_node(ids[node])?.element_data()?;
    let layout = &el.inline_layout_data.as_ref()?.layout;
    let sel = parley::Selection::new(
        parley::Cursor::from_byte_index(layout, b0, parley::Affinity::Downstream),
        parley::Cursor::from_byte_index(layout, b1, parley::Affinity::Upstream),
    );
    let (first, _) = sel.geometry(layout).into_iter().next()?;
    Some(node_origin(dom, node)?.1 + milli(first.y0 as f32))
}

#[test]
fn a_page_inside_a_long_paragraph_comes_back_to_itself() {
    let long = "Una frase que se repite para llenar varias paginas de texto. ".repeat(400);
    let doc = lay_out(
        &format!("<html><body><p>{long}</p></body></html>"),
        ReadingStyle::default().stylesheet(),
        900,
        700,
    );
    let (dom, ids) = dom_of(&doc);
    let pages = paginate_dom(&dom, milli(600.0));

    assert!(pages.count() > 3, "the fixture must span pages");
    for page in 0..pages.count() {
        let top = pages.top_of(page);
        let node = node_at(&dom, top).expect("no node at the page top");

        let off = char_at(&dom, node, top).expect("no character offset");
        let y = char_top(&doc, &dom, &ids, node, off, 1).expect("the character has no box");

        assert_eq!(pages.page_containing(y), page, "page {page} came back wrong");

        let saved = save_position(&dom, &pages, page, 4).expect("no address");
        assert_eq!(saved.offset, Some(off));
        assert_eq!(restore_position(&dom, &pages, &saved, 4, Some(y)), Some(page));
        assert_eq!(restore_position(&dom, &pages, &saved, 5, Some(y)), None);
    }

    let node = node_at(&dom, pages.top_of(2)).unwrap();
    let bare = node_top(&dom, node).unwrap();
    assert_eq!(pages.page_containing(bare), 0, "the paragraph starts on page 1");
}

#[test]
fn a_saved_position_survives_a_reflow() {
    let body: String = (0..60)
        .map(|i| format!("<p>Párrafo número {i} con bastante texto para que la línea se rompa varias veces y la página cambie al variar el cuerpo.</p>"))
        .collect();

    let small = ReadingStyle { theme: Theme::White, scale: 1000 };
    let dom = fragment(&body, &small, 760, 1000);
    let pages_small = paginate_dom(&dom, milli(900.0));
    assert!(pages_small.count() > 3, "need several pages to test with");

    let page = 3;
    let top = pages_small.top_of(page);
    let node = node_at(&dom, top).expect("a node at the page top");
    let saved = cfi::of_node(&dom, node, 7).expect("a cfi");
    let text_of = |dom: &Dom, n: usize| {
        dom.nodes[n].element.as_ref().and_then(|e| e.inline.as_ref()).map(|t| t.text.clone())
    };
    let text_at_save = text_of(&dom, node);

    let big = ReadingStyle { theme: Theme::White, scale: 1400 };
    let dom2 = fragment(&body, &big, 760, 1000);
    let pages_big = paginate_dom(&dom2, milli(900.0));
    assert_ne!(
        pages_big.count(),
        pages_small.count(),
        "font change should have re-flowed the text"
    );

    let node2 = cfi::resolve(&dom2, &saved).expect("cfi resolves after reflow");
    let y2 = node_top(&dom2, node2).expect("node has a position");
    let page2 = pages_big.page_containing(y2);

    let text_after = text_of(&dom2, node2);
    assert_eq!(text_at_save, text_after, "resumed at a different paragraph");
    assert!(page2 < pages_big.count());
}

/// The `href` at a point of the flow or beside it.
fn href_at(doc: &HtmlDocument, dom: &Dom, ids: &[usize], x: i64, y: i64) -> Option<String> {
    probes(x, y).into_iter().find_map(|(px, py)| {
        let hit = doc.hit(px as f32 / 1000.0, py as f32 / 1000.0)?;
        let at = ids.iter().position(|&id| id == hit.node_id)?;
        ancestor_attr(dom, at, "href")
    })
}

#[test]
fn a_near_miss_still_finds_the_note_reference() {
    let html = r##"<html><body><p>Una frase larga que ocupa una linea entera y
            termina con una nota<sup><a href="#n1">2</a></sup> y sigue despues
            con mas palabras para llenar la medida.</p>
            <p id="n1">2 La nota, que es corta.</p></body></html>"##;
    let doc = lay_out(html, ReadingStyle::default().stylesheet(), 900, 700);
    let (dom, ids) = dom_of(&doc);

    let par = node_containing_text(&dom, "termina con una nota").expect("no paragraph");
    let r = node_rect(&dom, par).expect("no box");
    let mut on: Option<(i64, i64)> = None;
    let mut y = r.y;
    while y < r.y + r.height && on.is_none() {
        let mut x = r.x;
        while x < r.x + r.width {
            let hit = doc
                .hit(x as f32 / 1000.0, y as f32 / 1000.0)
                .and_then(|h| ids.iter().position(|&id| id == h.node_id))
                .and_then(|i| ancestor_attr(&dom, i, "href"));
            if hit.is_some() {
                on = Some((x, y));
                break;
            }
            x += 1000;
        }
        y += 1000;
    }
    let (hx, hy) = on.expect("the link is not hittable anywhere");

    assert_eq!(href_at(&doc, &dom, &ids, hx, hy).as_deref(), Some("#n1"));
    assert_eq!(href_at(&doc, &dom, &ids, hx - 6000, hy).as_deref(), Some("#n1"));
    assert_eq!(href_at(&doc, &dom, &ids, hx, hy + 6000).as_deref(), Some("#n1"));
    assert_eq!(href_at(&doc, &dom, &ids, r.x, r.y + r.height - 1000), None);
}

#[test]
fn links_in_a_laid_out_chapter_open_their_note() {
    let html = r##"<html><body><h2 id="s">Capítulo 4</h2>
            <p id="n1">2 La nota, que es corta.</p></body></html>"##;
    let dom = dom_of(&lay_out(html, ReadingStyle::default().stylesheet(), 900, 700)).0;
    assert_eq!(note_at(&dom, "n1").as_deref(), Some("2 La nota, que es corta."));
    assert_eq!(note_at(&dom, "s"), None);
    assert_eq!(note_at(&dom, "nowhere"), None);
}
