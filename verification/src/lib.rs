use vstd::prelude::*;

pub mod text;
pub mod translate;
pub mod vtt;

use crate::text::{split_char, split_spec, strs_view, trim, trim_spec};
use crate::vtt::{lines_view, Vtt};

verus! {

/// Where one fragment of a sentence came from: the block and line that held
/// it, and the character length it had there.
#[derive(Debug, Clone, Copy)]
pub struct ChunkDesc {
    pub block_num: usize,
    pub line_num: usize,
    pub chunk_len: usize,
}

/// A reconstructed sentence: the fragment positions it was assembled from, in
/// reading order, and its full text.
pub type Sentence = (Vec<ChunkDesc>, String);

/// Mathematical model of a fragment position.
#[verifier::ext_equal]
pub struct SpecChunk {
    pub block: int,
    pub line: int,
    pub len: int,
}

/// Mathematical model of a sentence.
#[verifier::ext_equal]
pub struct SpecSentence {
    pub pos: Seq<SpecChunk>,
    pub text: Seq<char>,
}

/// State of sentence reconstruction: the sentences emitted so far and the
/// accumulators of the sentence still open.
#[verifier::ext_equal]
pub struct ReconState {
    pub sents: Seq<SpecSentence>,
    pub pos: Seq<SpecChunk>,
    pub text: Seq<char>,
}

pub open spec fn chunk_view(cd: ChunkDesc) -> SpecChunk {
    SpecChunk { block: cd.block_num as int, line: cd.line_num as int, len: cd.chunk_len as int }
}

pub open spec fn descs_view(s: Seq<ChunkDesc>) -> Seq<SpecChunk> {
    s.map(|i: int, cd: ChunkDesc| chunk_view(cd))
}

pub open spec fn sent_view(s: Sentence) -> SpecSentence {
    SpecSentence { pos: descs_view(s.0@), text: s.1@ }
}

pub open spec fn sents_view(s: Seq<Sentence>) -> Seq<SpecSentence> {
    s.map(|i: int, x: Sentence| sent_view(x))
}

pub open spec fn init_state() -> ReconState {
    ReconState { sents: Seq::empty(), pos: Seq::empty(), text: Seq::empty() }
}

pub open spec fn cur_state(all: Seq<Sentence>, descs: Seq<ChunkDesc>, text: Seq<char>) -> ReconState {
    ReconState { sents: sents_view(all), pos: descs_view(descs), text: text }
}

/// One step of reconstruction: take the next raw chunk of the line at block
/// `b`, line `l`. An empty raw chunk carries no fragment. Otherwise the
/// trimmed chunk joins the open sentence; if another raw chunk follows in the
/// same line (`more`), a fullstop ended the chunk, so the open sentence is
/// closed with a literal `.` and emitted; else a separating space is added
/// and the sentence stays open.
pub open spec fn recon_step(st: ReconState, chunk: Seq<char>, more: bool, b: int, l: int) -> ReconState {
    if chunk.len() == 0 {
        st
    } else {
        let t = trim_spec(chunk);
        let pos = st.pos.push(SpecChunk { block: b, line: l, len: t.len() as int });
        if more {
            ReconState {
                sents: st.sents.push(SpecSentence { pos: pos, text: st.text + t + seq!['.'] }),
                pos: Seq::empty(),
                text: Seq::empty(),
            }
        } else {
            ReconState { sents: st.sents, pos: pos, text: st.text + t + seq![' '] }
        }
    }
}

/// The raw chunks of one text line: the line is trimmed, then split at every
/// fullstop.
pub open spec fn line_chunks(line: Seq<char>) -> Seq<Seq<char>> {
    split_spec(trim_spec(line), '.')
}

/// Reconstruction state after the first `n` raw chunks of one line.
pub open spec fn recon_chunks(chunks: Seq<Seq<char>>, n: int, b: int, l: int, st: ReconState) -> ReconState
    decreases n,
{
    if n <= 0 {
        st
    } else {
        recon_step(recon_chunks(chunks, n - 1, b, l, st), chunks[n - 1], n < chunks.len(), b, l)
    }
}

/// Reconstruction state after the first `n` lines of block `b`.
pub open spec fn recon_lines(lines: Seq<Seq<char>>, n: int, b: int, st: ReconState) -> ReconState
    decreases n,
{
    if n <= 0 {
        st
    } else {
        let cs = line_chunks(lines[n - 1]);
        recon_chunks(cs, cs.len() as int, b, n - 1, recon_lines(lines, n - 1, b, st))
    }
}

/// Reconstruction state after the first `n` blocks of the document.
pub open spec fn recon_blocks(doc: Seq<Seq<Seq<char>>>, n: int, st: ReconState) -> ReconState
    decreases n,
{
    if n <= 0 {
        st
    } else {
        recon_lines(doc[n - 1], doc[n - 1].len() as int, n - 1, recon_blocks(doc, n - 1, st))
    }
}

/// The sentences reconstructed from a document's text lines, in reading
/// order. A sentence still open at the end of the document is not emitted.
pub open spec fn reconstruct_spec(doc: Seq<Seq<Seq<char>>>) -> Seq<SpecSentence> {
    recon_blocks(doc, doc.len() as int, init_state()).sents
}

proof fn lemma_descs_view_push(s: Seq<ChunkDesc>, cd: ChunkDesc)
    ensures
        descs_view(s.push(cd)) == descs_view(s).push(chunk_view(cd)),
{
    assert(descs_view(s.push(cd)) =~= descs_view(s).push(chunk_view(cd)));
}

proof fn lemma_sents_view_push(s: Seq<Sentence>, x: Sentence)
    ensures
        sents_view(s.push(x)) == sents_view(s).push(sent_view(x)),
{
    assert(sents_view(s.push(x)) =~= sents_view(s).push(sent_view(x)));
}

/// Walk the document's blocks and lines in order and assemble the
/// fullstop-delimited sentences, recording for each the positions and
/// character lengths of the fragments it was assembled from.
pub fn recontruct_sentences(vtt: &Vtt) -> (r: Vec<Sentence>)
    ensures
        sents_view(r@) == reconstruct_spec(lines_view(vtt.blocks@)),
{
    let ghost doc = lines_view(vtt.blocks@);
    let mut all: Vec<Sentence> = Vec::new();
    let mut descs: Vec<ChunkDesc> = Vec::new();
    let mut text = String::new();
    proof {
        assert(cur_state(all@, descs@, text@) =~~= init_state());
    }
    let mut b: usize = 0;
    while b < vtt.blocks.len()
        invariant
            doc == lines_view(vtt.blocks@),
            b <= vtt.blocks@.len(),
            doc.len() == vtt.blocks@.len(),
            cur_state(all@, descs@, text@) == recon_blocks(doc, b as int, init_state()),
        decreases vtt.blocks@.len() - b,
    {
        let ghost st_block = recon_blocks(doc, b as int, init_state());
        let nlines = vtt.blocks[b].text_lines.len();
        proof {
            assert(doc[b as int] == strs_view(vtt.blocks@[b as int].text_lines@));
        }
        let mut l: usize = 0;
        while l < nlines
            invariant
                doc == lines_view(vtt.blocks@),
                b < vtt.blocks@.len(),
                doc.len() == vtt.blocks@.len(),
                nlines == vtt.blocks@[b as int].text_lines@.len(),
                doc[b as int].len() == nlines,
                l <= nlines,
                st_block == recon_blocks(doc, b as int, init_state()),
                cur_state(all@, descs@, text@) == recon_lines(doc[b as int], l as int, b as int, st_block),
            decreases nlines - l,
        {
            let ghost st_line = recon_lines(doc[b as int], l as int, b as int, st_block);
            let line = trim(vtt.blocks[b].text_lines[l].as_str());
            let chunks = split_char(line, '.');
            proof {
                assert(doc[b as int][l as int] == vtt.blocks@[b as int].text_lines@[l as int]@);
                assert(strs_view(chunks@) == line_chunks(doc[b as int][l as int]));
            }
            let nchunks = chunks.len();
            let mut k: usize = 0;
            while k < nchunks
                invariant
                    nchunks == chunks@.len(),
                    k <= nchunks,
                    strs_view(chunks@) == line_chunks(doc[b as int][l as int]),
                    st_line == recon_lines(doc[b as int], l as int, b as int, st_block),
                    cur_state(all@, descs@, text@) == recon_chunks(
                        strs_view(chunks@),
                        k as int,
                        b as int,
                        l as int,
                        st_line,
                    ),
                decreases nchunks - k,
            {
                let ghost st_prev = cur_state(all@, descs@, text@);
                let ghost raw = strs_view(chunks@)[k as int];
                proof {
                    assert(raw == chunks@[k as int]@);
                }
                if !chunks[k].as_str().is_empty() {
                    let ct = trim(chunks[k].as_str());
                    let cd = ChunkDesc { block_num: b, line_num: l, chunk_len: ct.unicode_len() };
                    let ghost od = descs@;
                    text.append(ct);
                    descs.push(cd);
                    proof {
                        lemma_descs_view_push(od, cd);
                    }
                    if k + 1 < nchunks {
                        proof {
                            reveal_strlit(".");
                            assert("."@ =~= seq!['.']);
                        }
                        text.append(".");
                        let ghost oall = all@;
                        let sent: Sentence = (descs, text);
                        proof {
                            lemma_sents_view_push(oall, sent);
                        }
                        all.push(sent);
                        descs = Vec::new();
                        text = String::new();
                        proof {
                            assert(cur_state(all@, descs@, text@) =~~= recon_step(
                                st_prev,
                                raw,
                                (k + 1) < strs_view(chunks@).len(),
                                b as int,
                                l as int,
                            ));
                        }
                    } else {
                        proof {
                            reveal_strlit(" ");
                            assert(" "@ =~= seq![' ']);
                        }
                        text.append(" ");
                        proof {
                            assert(cur_state(all@, descs@, text@) =~~= recon_step(
                                st_prev,
                                raw,
                                (k + 1) < strs_view(chunks@).len(),
                                b as int,
                                l as int,
                            ));
                        }
                    }
                } else {
                    proof {
                        assert(cur_state(all@, descs@, text@) =~~= recon_step(
                            st_prev,
                            raw,
                            (k + 1) < strs_view(chunks@).len(),
                            b as int,
                            l as int,
                        ));
                    }
                }
                k = k + 1;
            }
            l = l + 1;
        }
        b = b + 1;
    }
    all
}

} // verus!

verus! {

/// The words of a replacement text: the pieces between single spaces
/// (consecutive or edge spaces yield empty words, skipped when consuming).
pub open spec fn words_of(text: Seq<char>) -> Seq<Seq<char>> {
    split_spec(text, ' ')
}

/// Result of greedy word consumption: the accumulated chunk text and the
/// index of the next word not yet consumed.
#[verifier::ext_equal]
pub struct Consumed {
    pub acc: Seq<char>,
    pub w: int,
}

/// Greedily consume whole words into one chunk: always take at least one
/// word; keep taking while the accumulated length plus a lookahead slack of 3
/// still fits the target, or unconditionally for the last fragment of the
/// sentence; each non-empty word is appended followed by a single space.
pub open spec fn consume(words: Seq<Seq<char>>, w: int, acc: Seq<char>, target: int, last: bool) -> Consumed
    decreases words.len() - w,
{
    if w < words.len() && (acc.len() == 0 || acc.len() + 3 <= target || last) {
        let acc2 = if words[w].len() == 0 {
            acc
        } else {
            acc + words[w] + seq![' ']
        };
        consume(words, w + 1, acc2, target, last)
    } else {
        Consumed { acc: acc, w: w }
    }
}

/// The sum of the fragment lengths of the first `k` positions.
pub open spec fn total_upto(pos: Seq<SpecChunk>, k: int) -> int
    decreases k,
{
    if k <= 0 {
        0
    } else {
        total_upto(pos, k - 1) + pos[k - 1].len
    }
}

/// The sum of all fragment lengths of a sentence.
pub open spec fn total_len(pos: Seq<SpecChunk>) -> int {
    total_upto(pos, pos.len() as int)
}

/// Allocation state after the first `k` fragments of one sentence: the chunk
/// text given to each fragment so far, and the next word index. Each
/// fragment's target size is its share of the replacement text, proportioned
/// by original fragment length; the last fragment absorbs all leftover words.
#[verifier::ext_equal]
pub struct AllocState {
    pub texts: Seq<Seq<char>>,
    pub w: int,
}

pub open spec fn alloc_upto(pos: Seq<SpecChunk>, k: int, total: int, tlen: int, words: Seq<Seq<char>>) -> AllocState
    decreases k,
{
    if k <= 0 {
        AllocState { texts: Seq::empty(), w: 0 }
    } else {
        let st = alloc_upto(pos, k - 1, total, tlen, words);
        let target = pos[k - 1].len * tlen / total;
        let c = consume(words, st.w, Seq::empty(), target, k == pos.len());
        AllocState { texts: st.texts.push(c.acc), w: c.w }
    }
}

/// The chunk texts a sentence's fragments receive from its replacement text.
pub open spec fn chunk_alloc(s: SpecSentence) -> Seq<Seq<char>> {
    alloc_upto(
        s.pos,
        s.pos.len() as int,
        total_len(s.pos),
        s.text.len() as int,
        words_of(s.text),
    ).texts
}

/// Append one chunk text to the line at (`b`, `l`), preceded by a single
/// space if that line already holds text.
pub open spec fn place_chunk(doc: Seq<Seq<Seq<char>>>, b: int, l: int, chunk: Seq<char>) -> Seq<Seq<Seq<char>>> {
    let line = doc[b][l];
    let line2 = if line.len() == 0 {
        chunk
    } else {
        line + seq![' '] + chunk
    };
    doc.update(b, doc[b].update(l, line2))
}

/// The document after the first `k` chunk texts of one sentence are placed.
pub open spec fn place_upto(doc: Seq<Seq<Seq<char>>>, pos: Seq<SpecChunk>, texts: Seq<Seq<char>>, k: int) -> Seq<Seq<Seq<char>>>
    decreases k,
{
    if k <= 0 {
        doc
    } else {
        place_chunk(
            place_upto(doc, pos, texts, k - 1),
            pos[k - 1].block,
            pos[k - 1].line,
            texts[k - 1],
        )
    }
}

/// The document after one sentence's replacement text is reflowed into it.
pub open spec fn reflow_sentence(doc: Seq<Seq<Seq<char>>>, s: SpecSentence) -> Seq<Seq<Seq<char>>> {
    place_upto(doc, s.pos, chunk_alloc(s), s.pos.len() as int)
}

/// The document after the first `n` sentences are reflowed into it.
pub open spec fn reflow_upto(doc: Seq<Seq<Seq<char>>>, sents: Seq<SpecSentence>, n: int) -> Seq<Seq<Seq<char>>>
    decreases n,
{
    if n <= 0 {
        doc
    } else {
        reflow_sentence(reflow_upto(doc, sents, n - 1), sents[n - 1])
    }
}

/// The document with every line blanked.
pub open spec fn blank_doc(doc: Seq<Seq<Seq<char>>>) -> Seq<Seq<Seq<char>>> {
    doc.map(|i: int, blk: Seq<Seq<char>>| blk.map(|j: int, line: Seq<char>| Seq::<char>::empty()))
}

/// The text lines of the document after reflow: every line is blanked, then
/// each sentence's replacement text is distributed over its fragment
/// positions in order.
pub open spec fn reflow_spec(doc: Seq<Seq<Seq<char>>>, sents: Seq<SpecSentence>) -> Seq<Seq<Seq<char>>> {
    reflow_upto(blank_doc(doc), sents, sents.len() as int)
}

/// A fragment position that refers to a real line of the document, with a
/// length that keeps the proportion arithmetic within machine bounds.
pub open spec fn chunk_fits(doc: Seq<Seq<Seq<char>>>, c: SpecChunk) -> bool {
    &&& 0 <= c.block < doc.len()
    &&& 0 <= c.line < doc[c.block].len()
    &&& 0 <= c.len
}

pub open spec fn sentence_fits(doc: Seq<Seq<Seq<char>>>, s: SpecSentence) -> bool {
    &&& forall|i: int| 0 <= i < s.pos.len() ==> chunk_fits(doc, #[trigger] s.pos[i])
    &&& (s.pos.len() > 0 ==> total_len(s.pos) > 0)
    &&& total_len(s.pos) <= usize::MAX
    &&& forall|i: int| 0 <= i < s.pos.len() ==> (#[trigger] s.pos[i].len) * s.text.len() <= usize::MAX
}

/// Every sentence's fragment positions refer to real lines of the document,
/// every sentence with at least one fragment has a positive total original
/// length (else its proportion would divide by zero), and the proportion
/// arithmetic stays within machine bounds.
pub open spec fn sentences_fit_spec(doc: Seq<Seq<Seq<char>>>, sents: Seq<SpecSentence>) -> bool {
    forall|i: int| 0 <= i < sents.len() ==> sentence_fits(doc, #[trigger] sents[i])
}

proof fn lemma_total_nonneg(pos: Seq<SpecChunk>, k: int)
    requires
        0 <= k <= pos.len(),
        forall|i: int| 0 <= i < pos.len() ==> (#[trigger] pos[i]).len >= 0,
    ensures
        total_upto(pos, k) >= 0,
    decreases k,
{
    if k > 0 {
        lemma_total_nonneg(pos, k - 1);
    }
}

proof fn lemma_total_mono(pos: Seq<SpecChunk>, k: int, n: int)
    requires
        0 <= k <= n <= pos.len(),
        forall|i: int| 0 <= i < pos.len() ==> (#[trigger] pos[i]).len >= 0,
    ensures
        total_upto(pos, k) <= total_upto(pos, n),
        total_upto(pos, k) >= 0,
    decreases n - k,
{
    lemma_total_nonneg(pos, k);
    if k < n {
        lemma_total_mono(pos, k, n - 1);
    }
}

} // verus!

verus! {

proof fn lemma_strs_view_update(v: Seq<String>, i: int, x: String)
    requires
        0 <= i < v.len(),
    ensures
        strs_view(v.update(i, x)) == strs_view(v).update(i, x@),
{
    assert(strs_view(v.update(i, x)) =~= strs_view(v).update(i, x@));
}

proof fn lemma_lines_view_update(blocks: Seq<crate::vtt::VttBlock>, i: int, b2: crate::vtt::VttBlock)
    requires
        0 <= i < blocks.len(),
    ensures
        lines_view(blocks.update(i, b2)) == lines_view(blocks).update(i, strs_view(b2.text_lines@)),
{
    assert(lines_view(blocks.update(i, b2)) =~= lines_view(blocks).update(
        i,
        strs_view(b2.text_lines@),
    ));
}

proof fn lemma_not_fit(doc: Seq<Seq<Seq<char>>>, sents: Seq<SpecSentence>, i: int)
    requires
        0 <= i < sents.len(),
        !sentence_fits(doc, sents[i]),
    ensures
        !sentences_fit_spec(doc, sents),
{
    if sentences_fit_spec(doc, sents) {
        assert(sentence_fits(doc, sents[i]));
    }
}

/// Decide at run time whether `sentences` fit `vtt`, as `sentences_fit_spec`
/// describes; reflow may only be asked for sentences that fit.
pub fn sentences_fit(vtt: &Vtt, sentences: &Vec<Sentence>) -> (r: bool)
    ensures
        r == sentences_fit_spec(lines_view(vtt.blocks@), sents_view(sentences@)),
{
    let ghost doc = lines_view(vtt.blocks@);
    let ghost sv = sents_view(sentences@);
    let mut i: usize = 0;
    while i < sentences.len()
        invariant
            i <= sentences@.len(),
            doc == lines_view(vtt.blocks@),
            sv == sents_view(sentences@),
            sv.len() == sentences@.len(),
            forall|q: int| 0 <= q < i ==> sentence_fits(doc, #[trigger] sv[q]),
        decreases sentences@.len() - i,
    {
        let s = &sentences[i];
        let ghost spos = sv[i as int].pos;
        proof {
            assert(sv[i as int] == sent_view(sentences@[i as int]));
            assert(forall|q: int| 0 <= q < spos.len() ==> (#[trigger] spos[q]) == chunk_view(
                s.0@[q],
            ));
        }
        let tlen = s.1.as_str().unicode_len();
        let nch = s.0.len();
        let mut tot: usize = 0;
        let mut j: usize = 0;
        while j < nch
            invariant
                j <= nch,
                nch == s.0@.len(),
                doc == lines_view(vtt.blocks@),
                doc.len() == vtt.blocks@.len(),
                sv == sents_view(sentences@),
                sv.len() == sentences@.len(),
                spos == sv[i as int].pos,
                0 <= i < sv.len(),
                spos.len() == nch,
                tlen == sv[i as int].text.len(),
                forall|q: int| 0 <= q < spos.len() ==> (#[trigger] spos[q]) == chunk_view(s.0@[q]),
                tot == total_upto(spos, j as int),
                forall|q: int| 0 <= q < j ==> chunk_fits(doc, #[trigger] spos[q]),
                forall|q: int| 0 <= q < j ==> (#[trigger] spos[q]).len * sv[i as int].text.len()
                    <= usize::MAX,
            decreases nch - j,
        {
            let cd = &s.0[j];
            if cd.block_num >= vtt.blocks.len() {
                proof {
                    assert(!chunk_fits(doc, spos[j as int]));
                    assert(!sentence_fits(doc, sv[i as int]));
                    lemma_not_fit(doc, sv, i as int);
                }
                return false;
            }
            if cd.line_num >= vtt.blocks[cd.block_num].text_lines.len() {
                proof {
                    assert(doc[cd.block_num as int].len() == vtt.blocks@[
                        cd.block_num as int
                    ].text_lines@.len());
                    assert(!chunk_fits(doc, spos[j as int]));
                    assert(!sentence_fits(doc, sv[i as int]));
                    lemma_not_fit(doc, sv, i as int);
                }
                return false;
            }
            proof {
                assert((cd.chunk_len as u128) * (tlen as u128) <= (0xffff_ffff_ffff_ffffu128)
                    * (0xffff_ffff_ffff_ffffu128)) by (nonlinear_arith)
                    requires
                        cd.chunk_len as u128 <= 0xffff_ffff_ffff_ffffu128,
                        tlen as u128 <= 0xffff_ffff_ffff_ffffu128,
                ;
            }
            if (cd.chunk_len as u128) * (tlen as u128) > (usize::MAX as u128) {
                proof {
                    assert(spos[j as int].len * sv[i as int].text.len() > usize::MAX);
                    assert(!sentence_fits(doc, sv[i as int]));
                    lemma_not_fit(doc, sv, i as int);
                }
                return false;
            }
            if cd.chunk_len > usize::MAX - tot {
                proof {
                    assert(forall|q: int| 0 <= q < spos.len() ==> (#[trigger] spos[q]).len >= 0);
                    lemma_total_mono(spos, j + 1, nch as int);
                    assert(total_len(spos) > usize::MAX);
                    assert(!sentence_fits(doc, sv[i as int]));
                    lemma_not_fit(doc, sv, i as int);
                }
                return false;
            }
            tot = tot + cd.chunk_len;
            j = j + 1;
        }
        if nch > 0 && tot == 0 {
            proof {
                assert(total_len(spos) == 0);
                assert(!sentence_fits(doc, sv[i as int]));
                lemma_not_fit(doc, sv, i as int);
            }
            return false;
        }
        proof {
            assert(sentence_fits(doc, sv[i as int]));
        }
        i = i + 1;
    }
    true
}

} // verus!

verus! {

/// The blocks keep their identifiers, timing lines and line counts.
pub open spec fn same_shape(a: Seq<crate::vtt::VttBlock>, c: Seq<crate::vtt::VttBlock>) -> bool {
    &&& a.len() == c.len()
    &&& forall|i: int| 0 <= i < a.len() ==> {
        &&& (#[trigger] c[i])._id == a[i]._id
        &&& c[i].timecode == a[i].timecode
        &&& c[i].text_lines@.len() == a[i].text_lines@.len()
    }
}

/// Rewrite the document's text lines in place: blank every line, then give
/// each sentence's fragment positions their proportioned, word-atomic slice
/// of that sentence's replacement text, as `reflow_spec` describes. Block
/// order, identifiers, timing lines and line counts are unchanged.
pub fn update_vtt(vtt: &mut Vtt, sentences: &Vec<Sentence>)
    requires
        sentences_fit_spec(lines_view(old(vtt).blocks@), sents_view(sentences@)),
    ensures
        same_shape(old(vtt).blocks@, final(vtt).blocks@),
        lines_view(final(vtt).blocks@) == reflow_spec(
            lines_view(old(vtt).blocks@),
            sents_view(sentences@),
        ),
{
    let ghost doc0 = lines_view(old(vtt).blocks@);
    let ghost sv = sents_view(sentences@);
    // Blank every line, keeping the block and line structure.
    let nblocks = vtt.blocks.len();
    let mut b: usize = 0;
    while b < nblocks
        invariant
            nblocks == vtt.blocks@.len(),
            b <= nblocks,
            same_shape(old(vtt).blocks@, vtt.blocks@),
            forall|i: int, j: int|
                0 <= i < b && 0 <= j < vtt.blocks@[i].text_lines@.len()
                    ==> (#[trigger] vtt.blocks@[i].text_lines@[j])@.len() == 0,
            forall|i: int|
                b <= i < nblocks ==> #[trigger] vtt.blocks@[i] == old(vtt).blocks@[i],
        decreases nblocks - b,
    {
        let ghost blocks_at = vtt.blocks@;
        let nl = vtt.blocks[b].text_lines.len();
        let mut l: usize = 0;
        while l < nl
            invariant
                b < nblocks,
                nblocks == vtt.blocks@.len(),
                blocks_at.len() == nblocks,
                l <= nl,
                nl == vtt.blocks@[b as int].text_lines@.len(),
                forall|i: int| 0 <= i < nblocks && i != b ==> #[trigger] vtt.blocks@[i]
                    == blocks_at[i],
                vtt.blocks@[b as int]._id == blocks_at[b as int]._id,
                vtt.blocks@[b as int].timecode == blocks_at[b as int].timecode,
                nl == blocks_at[b as int].text_lines@.len(),
                forall|j: int| 0 <= j < l ==> (#[trigger] vtt.blocks@[b as int].text_lines@[j])@.len()
                    == 0,
                forall|j: int| l <= j < nl ==> #[trigger] vtt.blocks@[b as int].text_lines@[j]
                    == blocks_at[b as int].text_lines@[j],
            decreases nl - l,
        {
            vtt.blocks[b].text_lines[l] = String::new();
            l = l + 1;
        }
        b = b + 1;
    }
    proof {
        assert(lines_view(vtt.blocks@) =~~= blank_doc(doc0));
    }
    // Distribute each sentence's replacement text over its fragment positions.
    let nsents = sentences.len();
    let mut si: usize = 0;
    while si < nsents
        invariant
            nsents == sentences@.len(),
            si <= nsents,
            sv == sents_view(sentences@),
            sv.len() == nsents,
            doc0 == lines_view(old(vtt).blocks@),
            sentences_fit_spec(doc0, sv),
            same_shape(old(vtt).blocks@, vtt.blocks@),
            vtt.blocks@.len() == doc0.len(),
            lines_view(vtt.blocks@) == reflow_upto(blank_doc(doc0), sv, si as int),
        decreases nsents - si,
    {
        let s = &sentences[si];
        let ghost doc_s = lines_view(vtt.blocks@);
        let ghost spos = sv[si as int].pos;
        proof {
            assert(sv[si as int] == sent_view(sentences@[si as int]));
            assert(sentence_fits(doc0, sv[si as int]));
            assert(forall|q: int| 0 <= q < spos.len() ==> (#[trigger] spos[q]) == chunk_view(
                s.0@[q],
            ));
            assert(forall|q: int| 0 <= q < spos.len() ==> (#[trigger] spos[q]).len >= 0);
        }
        let tlen = s.1.as_str().unicode_len();
        let words = split_char(s.1.as_str(), ' ');
        let ghost words_v = words_of(sv[si as int].text);
        proof {
            assert(strs_view(words@) == words_v);
        }
        let nch = s.0.len();
        let mut tot: usize = 0;
        let mut j: usize = 0;
        while j < nch
            invariant
                j <= nch,
                nch == s.0@.len(),
                spos.len() == nch,
                0 <= si < sv.len(),
                sv.len() == sentences@.len(),
                s == sentences@[si as int],
                sentence_fits(doc0, sv[si as int]),
                spos == sv[si as int].pos,
                forall|q: int| 0 <= q < spos.len() ==> (#[trigger] spos[q]) == chunk_view(
                    s.0@[q],
                ),
                forall|q: int| 0 <= q < spos.len() ==> (#[trigger] spos[q]).len >= 0,
                tot == total_upto(spos, j as int),
            decreases nch - j,
        {
            proof {
                lemma_total_mono(spos, j as int, nch as int);
                lemma_total_mono(spos, j + 1, nch as int);
            }
            tot = tot + s.0[j].chunk_len;
            j = j + 1;
        }
        let mut w: usize = 0;
        let ghost mut texts_so_far: Seq<Seq<char>> = Seq::empty();
        let mut k: usize = 0;
        proof {
            assert(AllocState { texts: texts_so_far, w: w as int } =~~= alloc_upto(
                spos,
                0,
                tot as int,
                tlen as int,
                words_v,
            ));
        }
        while k < nch
            invariant
                k <= nch,
                nch == s.0@.len(),
                spos.len() == nch,
                sv == sents_view(sentences@),
                sv.len() == sentences@.len(),
                nsents == sentences@.len(),
                0 <= si < nsents,
                s == sentences@[si as int],
                sentence_fits(doc0, sv[si as int]),
                spos == sv[si as int].pos,
                forall|q: int| 0 <= q < spos.len() ==> (#[trigger] spos[q]) == chunk_view(
                    s.0@[q],
                ),
                tlen == sv[si as int].text.len(),
                strs_view(words@) == words_v,
                words_v == words_of(sv[si as int].text),
                tot == total_len(spos),
                w <= words@.len(),
                doc0 == lines_view(old(vtt).blocks@),
                same_shape(old(vtt).blocks@, vtt.blocks@),
                vtt.blocks@.len() == doc0.len(),
                doc_s.len() == doc0.len(),
                forall|i: int| 0 <= i < doc0.len() ==> (#[trigger] doc_s[i]).len() == doc0[i].len(),
                texts_so_far.len() == k,
                (AllocState { texts: texts_so_far, w: w as int }) == alloc_upto(
                    spos,
                    k as int,
                    tot as int,
                    tlen as int,
                    words_v,
                ),
                lines_view(vtt.blocks@) == place_upto(doc_s, spos, texts_so_far, k as int),
            decreases nch - k,
        {
            let cd = &s.0[k];
            proof {
                assert(chunk_fits(doc0, spos[k as int]));
                assert(spos[k as int].len * sv[si as int].text.len() <= usize::MAX);
                if nch > 0 {
                    assert(total_len(spos) > 0);
                }
            }
            let target = cd.chunk_len * tlen / tot;
            let is_last = k + 1 == nch;
            let ghost w0 = w as int;
            let mut chunk = String::new();
            while (chunk.as_str().is_empty() || (target >= 3 && chunk.unicode_len() <= target - 3)
                || is_last) && w < words.len()
                invariant
                    w <= words@.len(),
                    strs_view(words@) == words_v,
                    0 <= w0 <= w,
                    consume(words_v, w0, Seq::empty(), target as int, is_last) == consume(
                        words_v,
                        w as int,
                        chunk@,
                        target as int,
                        is_last,
                    ),
                decreases words@.len() - w,
            {
                let ghost oc = chunk@;
                proof {
                    assert(words_v[w as int] == words@[w as int]@);
                    reveal_strlit(" ");
                    assert(" "@ =~= seq![' ']);
                }
                if !words[w].as_str().is_empty() {
                    chunk.append(words[w].as_str());
                    chunk.append(" ");
                }
                proof {
                    assert(consume(words_v, w as int, oc, target as int, is_last) == consume(
                        words_v,
                        w + 1,
                        chunk@,
                        target as int,
                        is_last,
                    ));
                }
                w = w + 1;
            }
            let ghost cres = consume(words_v, w0, Seq::empty(), target as int, is_last);
            proof {
                assert(cres == Consumed { acc: chunk@, w: w as int });
                assert(alloc_upto(spos, k + 1, tot as int, tlen as int, words_v)
                    =~~= AllocState { texts: texts_so_far.push(chunk@), w: w as int });
            }
            // Append this chunk to its line, after a space if the line holds text.
            let ghost prev_lines = lines_view(vtt.blocks@);
            let ghost prev_blocks = vtt.blocks@;
            let bn = cd.block_num;
            let ln = cd.line_num;
            let mut add = String::new();
            if !vtt.blocks[bn].text_lines[ln].as_str().is_empty() {
                proof {
                    reveal_strlit(" ");
                    assert(" "@ =~= seq![' ']);
                }
                add.append(" ");
            }
            add.append(chunk.as_str());
            vtt.blocks[bn].text_lines[ln].append(add.as_str());
            proof {
                let nb = vtt.blocks@[bn as int];
                lemma_strs_view_update(prev_blocks[bn as int].text_lines@, ln as int, nb.text_lines@[ln as int]);
                lemma_lines_view_update(prev_blocks, bn as int, nb);
                assert(lines_view(vtt.blocks@) =~~= place_chunk(
                    prev_lines,
                    spos[k as int].block,
                    spos[k as int].line,
                    chunk@,
                ));
                let ot = texts_so_far;
                texts_so_far = texts_so_far.push(chunk@);
                assert(texts_so_far.drop_last() =~= ot);
                assert(texts_so_far[k as int] == chunk@);
                assert(place_upto(doc_s, spos, texts_so_far, k + 1) == place_chunk(
                    place_upto(doc_s, spos, texts_so_far, k as int),
                    spos[k as int].block,
                    spos[k as int].line,
                    texts_so_far[k as int],
                ));
                assert(place_upto(doc_s, spos, texts_so_far.drop_last(), k as int) == place_upto(
                    doc_s,
                    spos,
                    texts_so_far,
                    k as int,
                )) by {
                    lemma_place_upto_prefix(doc_s, spos, texts_so_far, k as int);
                }
            }
            k = k + 1;
        }
        proof {
            assert(texts_so_far == chunk_alloc(sv[si as int]));
            assert(place_upto(doc_s, spos, texts_so_far, nch as int) == reflow_sentence(
                doc_s,
                sv[si as int],
            ));
            assert(lines_view(vtt.blocks@) == reflow_upto(blank_doc(doc0), sv, si + 1));
        }
        si = si + 1;
    }
}

/// Placing the first `k` chunks reads only the first `k` texts.
proof fn lemma_place_upto_prefix(doc: Seq<Seq<Seq<char>>>, pos: Seq<SpecChunk>, texts: Seq<Seq<char>>, k: int)
    requires
        0 <= k < texts.len(),
    ensures
        place_upto(doc, pos, texts.drop_last(), k) == place_upto(doc, pos, texts, k),
    decreases k,
{
    if k > 0 {
        lemma_place_upto_prefix(doc, pos, texts, k - 1);
    }
}

} // verus!

verus! {

/// The tool's command-line surface: the input file, the optional output file
/// (derived from the input path and target language when absent), the
/// optional source language (auto-detected when absent), the target
/// language, and the translation service credentials.
pub struct Cli {
    pub source_vtt_file: String,
    pub target_vtt_file: Option<String>,
    pub source_language: Option<crate::translate::Language>,
    pub target_language: crate::translate::Language,
    pub azure_resource_key: String,
    pub azure_resource_region: String,
}

impl From<crate::translate::Direction> for crate::vtt::Direction {
    /// The writing direction reported by the translation service, as the
    /// document writer names it.
    fn from(value: crate::translate::Direction) -> (r: crate::vtt::Direction) {
        match value {
            crate::translate::Direction::Ltr => crate::vtt::Direction::Ltr,
            crate::translate::Direction::Rtl => crate::vtt::Direction::Rtl,
        }
    }
}

impl vstd::std_specs::convert::FromSpecImpl<crate::translate::Direction> for crate::vtt::Direction {
    open spec fn obeys_from_spec() -> bool {
        true
    }

    open spec fn from_spec(value: crate::translate::Direction) -> Self {
        match value {
            crate::translate::Direction::Ltr => crate::vtt::Direction::Ltr,
            crate::translate::Direction::Rtl => crate::vtt::Direction::Rtl,
        }
    }
}

} // verus!

verus! {

/// Case-blind match of a file-name character against a lower-case pattern
/// character (ASCII case only).
pub open spec fn matches_ci(c: char, p: char) -> bool {
    c == p || ('a' <= p && p <= 'z' && c as u32 + 32 == p as u32)
}

pub open spec fn is_alpha(c: char) -> bool {
    ('a' <= c && c <= 'z') || ('A' <= c && c <= 'Z')
}

/// The rest of a file stem from a cut point is a language suffix when it is
/// empty, or a dash followed by the source language's code (case-blind),
/// optionally followed by a dash and a two-letter region tag.
pub open spec fn lang_suffix(rest: Seq<char>, code: Seq<char>) -> bool {
    ||| rest.len() == 0
    ||| (rest.len() == code.len() + 1 && rest[0] == '-' && forall|q: int|
        0 <= q < code.len() ==> matches_ci(rest[q + 1], #[trigger] code[q]))
    ||| (rest.len() == code.len() + 4 && rest[0] == '-' && (forall|q: int|
        0 <= q < code.len() ==> matches_ci(rest[q + 1], #[trigger] code[q])) && rest[code.len()
        + 1 as int] == '-' && is_alpha(rest[code.len() + 2 as int]) && is_alpha(rest[code.len() + 3 as int]))
}

pub open spec fn cut_ok(stem: Seq<char>, code: Seq<char>, k: int) -> bool {
    lang_suffix(stem.subrange(k, stem.len() as int), code)
}

/// The end of the shortest non-empty prefix of the stem whose rest is a
/// language suffix (the whole stem at the latest, its rest being empty).
pub open spec fn first_cut(stem: Seq<char>, code: Seq<char>, k: int) -> int
    decreases stem.len() - k,
{
    if k >= stem.len() || cut_ok(stem, code, k) {
        k
    } else {
        first_cut(stem, code, k + 1)
    }
}

/// The stem of the output file name: the source-language suffix (if any) is
/// cut off and a dash and the target language's code appended; an empty stem
/// gets a fixed fallback name.
pub open spec fn new_stem_spec(stem: Seq<char>, scode: Seq<char>, tcode: Seq<char>) -> Seq<char> {
    if stem.len() == 0 {
        "vtt-translate-output.vtt"@
    } else {
        stem.take(first_cut(stem, scode, 1)) + seq!['-'] + tcode
    }
}

/// The position right after the last path separator (0 when there is none).
pub open spec fn dir_split(path: Seq<char>) -> int
    decreases path.len(),
{
    if path.len() == 0 {
        0
    } else if path.last() == '/' {
        path.len() as int
    } else {
        dir_split(path.drop_last())
    }
}

/// The position of the dot before the file name's extension: the last dot,
/// unless it is the name's first character or there is none; then the name's
/// length (no extension).
pub open spec fn ext_split(name: Seq<char>) -> int
    decreases name.len(),
{
    if name.len() <= 1 {
        name.len() as int
    } else if name.last() == '.' {
        name.len() - 1
    } else {
        let e = ext_split(name.drop_last());
        if e == name.len() - 1 {
            name.len() as int
        } else {
            e
        }
    }
}

/// The output file path: the directory part of the input path is kept, the
/// file stem is rewritten by `new_stem_spec`, and a non-empty extension is
/// kept.
pub open spec fn default_target_spec(path: Seq<char>, src: crate::translate::Language, tgt: crate::translate::Language) -> Seq<char> {
    let d = dir_split(path);
    let name = path.subrange(d, path.len() as int);
    let e = ext_split(name);
    let stem = name.take(e);
    let ext_tail = if e < name.len() {
        name.subrange(e + 1, name.len() as int)
    } else {
        Seq::<char>::empty()
    };
    path.take(d) + new_stem_spec(stem, crate::translate::code_spec(src), crate::translate::code_spec(tgt)) + (
    if ext_tail.len() > 0 {
        seq!['.'] + ext_tail
    } else {
        Seq::<char>::empty()
    })
}

proof fn lemma_dir_split_found(s: Seq<char>, i: int)
    requires
        0 <= i < s.len(),
        s[i] == '/',
        forall|q: int| i < q < s.len() ==> s[q] != '/',
    ensures
        dir_split(s) == i + 1,
    decreases s.len(),
{
    if i < s.len() - 1 {
        assert(s.drop_last()[i] == s[i]);
        lemma_dir_split_found(s.drop_last(), i);
    }
}

proof fn lemma_dir_split_none(s: Seq<char>)
    requires
        forall|q: int| 0 <= q < s.len() ==> s[q] != '/',
    ensures
        dir_split(s) == 0,
    decreases s.len(),
{
    if s.len() > 0 {
        lemma_dir_split_none(s.drop_last());
    }
}

proof fn lemma_ext_split_found(s: Seq<char>, d: int)
    requires
        1 <= d < s.len(),
        s[d] == '.',
        forall|q: int| d < q < s.len() ==> s[q] != '.',
    ensures
        ext_split(s) == d,
    decreases s.len(),
{
    if d < s.len() - 1 {
        assert(s.drop_last()[d] == s[d]);
        lemma_ext_split_found(s.drop_last(), d);
    }
}

proof fn lemma_ext_split_none(s: Seq<char>)
    requires
        forall|q: int| 1 <= q < s.len() ==> s[q] != '.',
    ensures
        ext_split(s) == s.len(),
    decreases s.len(),
{
    if s.len() > 1 {
        lemma_ext_split_none(s.drop_last());
    }
}

pub fn matches_ci_exec(c: char, p: char) -> (r: bool)
    ensures
        r == matches_ci(c, p),
{
    c == p || ('a' <= p && p <= 'z' && (c as u32) + 32 == (p as u32))
}

pub fn is_alpha_exec(c: char) -> (r: bool)
    ensures
        r == is_alpha(c),
{
    ('a' <= c && c <= 'z') || ('A' <= c && c <= 'Z')
}

/// Whether the stem cut at `k` leaves a language suffix; matches `cut_ok`.
fn cut_match(stem: &str, k: usize, code: &str) -> (r: bool)
    requires
        k <= stem@.len(),
    ensures
        r == cut_ok(stem@, code@, k as int),
{
    let slen = stem.unicode_len();
    let clen = code.unicode_len();
    let rest_len = slen - k;
    let ghost rest = stem@.subrange(k as int, slen as int);
    if rest_len == 0 {
        return true;
    }
    let two_case = clen == rest_len - 1;
    let four_case = rest_len >= 4 && clen == rest_len - 4;
    if !two_case && !four_case {
        return false;
    }
    if stem.get_char(k) != '-' {
        return false;
    }
    let mut q: usize = 0;
    while q < clen
        invariant
            q <= clen,
            clen == code@.len(),
            slen == stem@.len(),
            k <= slen,
            k + 1 + clen <= slen,
            rest == stem@.subrange(k as int, slen as int),
            rest.len() == slen - k,
            rest.len() > 0,
            clen + 1 <= rest.len(),
            rest.len() == clen + 1 || rest.len() == clen + 4,
            forall|t: int| 0 <= t < q ==> matches_ci(stem@[k + 1 + t], #[trigger] code@[t]),
        decreases clen - q,
    {
        if !matches_ci_exec(stem.get_char(k + 1 + q), code.get_char(q)) {
            proof {
                assert(rest[q + 1] == stem@[k + 1 + q]);
                assert(!lang_suffix(rest, code@));
            }
            return false;
        }
        q = q + 1;
    }
    proof {
        assert(forall|t: int| 0 <= t < code@.len() ==> rest[t + 1] == stem@[#[trigger] (k + 1 + t)]);
    }
    if four_case {
        let r = stem.get_char(k + 1 + clen) == '-' && is_alpha_exec(stem.get_char(k + 2 + clen))
            && is_alpha_exec(stem.get_char(k + 3 + clen));
        proof {
            assert(rest[code@.len() + 1 as int] == stem@[k + 1 + clen]);
            assert(rest[code@.len() + 2 as int] == stem@[k + 2 + clen]);
            assert(rest[code@.len() + 3 as int] == stem@[k + 3 + clen]);
        }
        r
    } else {
        true
    }
}

/// Derive the output file path from the input path: keep the directory and
/// extension, cut a trailing source-language tag off the stem (matched
/// case-blind, with an optional two-letter region), and append the target
/// language's code, as `default_target_spec` describes.
#[verifier::rlimit(100)]
pub fn default_target_filename(
    source_filename: &str,
    source_language: crate::translate::Language,
    target_language: crate::translate::Language,
) -> (r: String)
    ensures
        r@ == default_target_spec(source_filename@, source_language, target_language),
{
    let plen = source_filename.unicode_len();
    let mut d: usize = plen;
    while d > 0 && source_filename.get_char(d - 1) != '/'
        invariant
            d <= plen,
            plen == source_filename@.len(),
            forall|q: int| d <= q < plen ==> source_filename@[q] != '/',
        decreases d,
    {
        d = d - 1;
    }
    proof {
        if d > 0 {
            lemma_dir_split_found(source_filename@, d - 1);
        } else {
            lemma_dir_split_none(source_filename@);
        }
        assert(dir_split(source_filename@) == d);
    }
    let name = source_filename.substring_char(d, plen);
    let nlen = plen - d;
    let mut j: usize = nlen;
    while j > 1 && name.get_char(j - 1) != '.'
        invariant
            j <= nlen,
            nlen == name@.len(),
            forall|q: int| j <= q < nlen ==> name@[q] != '.',
        decreases j,
    {
        j = j - 1;
    }
    let e: usize = if j > 1 {
        proof {
            lemma_ext_split_found(name@, j - 1);
        }
        j - 1
    } else {
        proof {
            lemma_ext_split_none(name@);
        }
        nlen
    };
    proof {
        assert(ext_split(name@) == e);
    }
    let stem = name.substring_char(0, e);
    let scode = source_language.code();
    let tcode = target_language.code();
    let mut out = String::new();
    out.append(source_filename.substring_char(0, d));
    if e == 0 {
        proof {
            assert(stem@ =~= Seq::<char>::empty());
        }
        out.append("vtt-translate-output.vtt");
    } else {
        let mut k: usize = 1;
        while k < e && !cut_match(stem, k, scode.as_str())
            invariant
                1 <= k <= e,
                e == stem@.len(),
                first_cut(stem@, scode@, 1) == first_cut(stem@, scode@, k as int),
            decreases e - k,
        {
            k = k + 1;
        }
        proof {
            assert(first_cut(stem@, scode@, 1) == k);
        }
        out.append(stem.substring_char(0, k));
        proof {
            reveal_strlit("-");
            assert("-"@ =~= seq!['-']);
        }
        out.append("-");
        out.append(tcode.as_str());
    }
    if nlen - e > 1 {
        proof {
            reveal_strlit(".");
            assert("."@ =~= seq!['.']);
        }
        out.append(".");
        out.append(name.substring_char(e + 1, nlen));
    }
    proof {
        assert(out@ =~= default_target_spec(source_filename@, source_language, target_language));
    }
    out
}

} // verus!

verus! {

/// The words of `words[a..b]` joined back together: each non-empty word
/// followed by a single space, empty words skipped.
pub open spec fn join_range(words: Seq<Seq<char>>, a: int, b: int) -> Seq<char>
    decreases b - a,
{
    if 0 <= a && a < b {
        (if words[a].len() == 0 {
            Seq::<char>::empty()
        } else {
            words[a] + seq![' ']
        }) + join_range(words, a + 1, b)
    } else {
        Seq::empty()
    }
}

/// The chunk texts of one sentence, concatenated in order.
pub open spec fn concat_texts(ts: Seq<Seq<char>>) -> Seq<char>
    decreases ts.len(),
{
    if ts.len() == 0 {
        Seq::empty()
    } else {
        concat_texts(ts.drop_last()) + ts.last()
    }
}

proof fn lemma_join_range_concat(words: Seq<Seq<char>>, a: int, m: int, b: int)
    requires
        0 <= a <= m <= b,
    ensures
        join_range(words, a, b) == join_range(words, a, m) + join_range(words, m, b),
    decreases m - a,
{
    if a < m {
        lemma_join_range_concat(words, a + 1, m, b);
        assert(join_range(words, a, b) =~= join_range(words, a, m) + join_range(words, m, b));
    } else {
        assert(join_range(words, a, a) =~= Seq::<char>::empty());
        assert(join_range(words, a, b) =~= join_range(words, a, a) + join_range(words, a, b));
    }
}

proof fn lemma_consume_words(words: Seq<Seq<char>>, w: int, acc: Seq<char>, target: int, last: bool)
    requires
        0 <= w <= words.len(),
    ensures
        ({
            let c = consume(words, w, acc, target, last);
            &&& w <= c.w <= words.len()
            &&& c.acc == acc + join_range(words, w, c.w)
        }),
    decreases words.len() - w,
{
    let c = consume(words, w, acc, target, last);
    if w < words.len() && (acc.len() == 0 || acc.len() + 3 <= target || last) {
        let acc2 = if words[w].len() == 0 {
            acc
        } else {
            acc + words[w] + seq![' ']
        };
        lemma_consume_words(words, w + 1, acc2, target, last);
        assert(c.acc =~= acc + join_range(words, w, c.w));
    } else {
        assert(c.acc =~= acc + join_range(words, w, c.w));
    }
}

proof fn lemma_consume_last(words: Seq<Seq<char>>, w: int, acc: Seq<char>, target: int)
    requires
        0 <= w <= words.len(),
    ensures
        consume(words, w, acc, target, true).w == words.len(),
    decreases words.len() - w,
{
    if w < words.len() {
        let acc2 = if words[w].len() == 0 {
            acc
        } else {
            acc + words[w] + seq![' ']
        };
        lemma_consume_last(words, w + 1, acc2, target);
    }
}

proof fn lemma_alloc_conserves(pos: Seq<SpecChunk>, k: int, total: int, tlen: int, words: Seq<Seq<char>>)
    requires
        0 <= k <= pos.len(),
    ensures
        ({
            let st = alloc_upto(pos, k, total, tlen, words);
            &&& 0 <= st.w <= words.len()
            &&& concat_texts(st.texts) == join_range(words, 0, st.w)
            &&& (k == pos.len() && k > 0 ==> st.w == words.len())
        }),
    decreases k,
{
    let st = alloc_upto(pos, k, total, tlen, words);
    if k <= 0 {
        assert(concat_texts(st.texts) =~= join_range(words, 0, 0));
    } else {
        let prev = alloc_upto(pos, k - 1, total, tlen, words);
        lemma_alloc_conserves(pos, k - 1, total, tlen, words);
        let target = pos[k - 1].len * tlen / total;
        let c = consume(words, prev.w, Seq::empty(), target, k == pos.len());
        lemma_consume_words(words, prev.w, Seq::empty(), target, k == pos.len());
        assert(st.texts.drop_last() =~= prev.texts);
        assert(concat_texts(st.texts) == concat_texts(prev.texts) + c.acc);
        assert(c.acc =~= join_range(words, prev.w, c.w));
        lemma_join_range_concat(words, 0, prev.w, c.w);
        if k == pos.len() {
            lemma_consume_last(words, prev.w, Seq::empty(), target);
        }
    }
}

/// Reflow word-conservation: for one sentence, the chunk texts its fragment
/// positions receive concatenate to exactly the words of the replacement
/// text, in order, each non-empty word followed by a single space — no word
/// dropped, none duplicated, the last fragment absorbing all that remain.
pub proof fn lemma_reflow_word_conservation(s: SpecSentence)
    requires
        s.pos.len() > 0,
    ensures
        concat_texts(chunk_alloc(s)) == join_range(
            words_of(s.text),
            0,
            words_of(s.text).len() as int,
        ),
{
    let words = words_of(s.text);
    lemma_alloc_conserves(s.pos, s.pos.len() as int, total_len(s.pos), s.text.len() as int, words);
}

/// Proportionality boundary: a sentence with exactly one fragment position
/// receives the whole replacement text in that one chunk, whatever target
/// size the length proportion computes.
pub proof fn lemma_single_fragment_takes_all(s: SpecSentence)
    requires
        s.pos.len() == 1,
    ensures
        chunk_alloc(s) == seq![
            join_range(words_of(s.text), 0, words_of(s.text).len() as int),
        ],
{
    let words = words_of(s.text);
    let total = total_len(s.pos);
    let tlen = s.text.len() as int;
    let target = s.pos[0].len * tlen / total;
    let c = consume(words, 0, Seq::empty(), target, true);
    lemma_consume_words(words, 0, Seq::empty(), target, true);
    lemma_consume_last(words, 0, Seq::empty(), target);
    assert(c.acc =~= join_range(words, 0, words.len() as int));
    let st0 = alloc_upto(s.pos, 0, total, tlen, words);
    let st1 = alloc_upto(s.pos, 1, total, tlen, words);
    assert(st0.texts =~= Seq::<Seq<char>>::empty());
    assert(st0.w == 0);
    assert(st1.texts == st0.texts.push(consume(words, st0.w, Seq::empty(), target, true).acc));
    assert(chunk_alloc(s) =~= seq![c.acc]);
}

/// A reflow with no sentences yields the document with every line blanked,
/// and nothing else: the zero-sentence document passes through without
/// fault.
pub proof fn lemma_reflow_no_sentences(doc: Seq<Seq<Seq<char>>>)
    ensures
        reflow_spec(doc, Seq::empty()) == blank_doc(doc),
{
}

} // verus!

verus! {

/// The texts of a run of sentences, concatenated in order.
pub open spec fn sents_text(sents: Seq<SpecSentence>) -> Seq<char>
    decreases sents.len(),
{
    if sents.len() == 0 {
        Seq::empty()
    } else {
        sents_text(sents.drop_last()) + sents.last().text
    }
}

/// The fragment-bearing text of the first `n` raw chunks of one line: each
/// non-empty chunk, trimmed, followed by the fullstop that ended it or by
/// the single space the reconstruction inserts after an unterminated chunk.
pub open spec fn chunks_text(chunks: Seq<Seq<char>>, n: int) -> Seq<char>
    decreases n,
{
    if n <= 0 {
        Seq::empty()
    } else {
        chunks_text(chunks, n - 1) + (if chunks[n - 1].len() == 0 {
            Seq::<char>::empty()
        } else {
            trim_spec(chunks[n - 1]) + (if n < chunks.len() {
                seq!['.']
            } else {
                seq![' ']
            })
        })
    }
}

/// The fragment-bearing text of the first `n` lines of one block.
pub open spec fn lines_text(lines: Seq<Seq<char>>, n: int) -> Seq<char>
    decreases n,
{
    if n <= 0 {
        Seq::empty()
    } else {
        lines_text(lines, n - 1) + chunks_text(
            line_chunks(lines[n - 1]),
            line_chunks(lines[n - 1]).len() as int,
        )
    }
}

/// The fragment-bearing text of the first `n` blocks of the document.
pub open spec fn doc_text(doc: Seq<Seq<Seq<char>>>, n: int) -> Seq<char>
    decreases n,
{
    if n <= 0 {
        Seq::empty()
    } else {
        doc_text(doc, n - 1) + lines_text(doc[n - 1], doc[n - 1].len() as int)
    }
}

proof fn lemma_chunks_complete(chunks: Seq<Seq<char>>, n: int, b: int, l: int, st: ReconState)
    requires
        0 <= n <= chunks.len(),
    ensures
        ({
            let st2 = recon_chunks(chunks, n, b, l, st);
            sents_text(st2.sents) + st2.text == sents_text(st.sents) + st.text + chunks_text(
                chunks,
                n,
            )
        }),
    decreases n,
{
    let st2 = recon_chunks(chunks, n, b, l, st);
    if n <= 0 {
        assert(sents_text(st2.sents) + st2.text =~= sents_text(st.sents) + st.text + chunks_text(
            chunks,
            n,
        ));
    } else {
        let prev = recon_chunks(chunks, n - 1, b, l, st);
        lemma_chunks_complete(chunks, n - 1, b, l, st);
        let c = chunks[n - 1];
        if c.len() == 0 {
            assert(chunks_text(chunks, n) =~= chunks_text(chunks, n - 1));
            assert(sents_text(st2.sents) + st2.text =~= sents_text(st.sents) + st.text
                + chunks_text(chunks, n));
        } else {
            let t = trim_spec(c);
            if n < chunks.len() {
                let sent = SpecSentence {
                    pos: prev.pos.push(SpecChunk { block: b, line: l, len: t.len() as int }),
                    text: prev.text + t + seq!['.'],
                };
                assert(st2.sents =~= prev.sents.push(sent));
                assert(st2.sents.drop_last() =~= prev.sents);
                assert(sents_text(st2.sents) == sents_text(prev.sents) + sent.text);
                assert(chunks_text(chunks, n) == chunks_text(chunks, n - 1) + (t + seq!['.']));
                assert(sents_text(prev.sents) + prev.text == sents_text(st.sents) + st.text
                    + chunks_text(chunks, n - 1));
                assert(sents_text(st2.sents) + st2.text =~= (sents_text(prev.sents) + prev.text) + (
                t + seq!['.']));
                assert((sents_text(st.sents) + st.text + chunks_text(chunks, n - 1)) + (t
                    + seq!['.']) =~= sents_text(st.sents) + st.text + chunks_text(chunks, n));
            } else {
                assert(st2.text =~= prev.text + t + seq![' ']);
                assert(chunks_text(chunks, n) == chunks_text(chunks, n - 1) + (t + seq![' ']));
                assert(sents_text(prev.sents) + prev.text == sents_text(st.sents) + st.text
                    + chunks_text(chunks, n - 1));
                assert(sents_text(st2.sents) + st2.text =~= (sents_text(prev.sents) + prev.text) + (
                t + seq![' ']));
                assert((sents_text(st.sents) + st.text + chunks_text(chunks, n - 1)) + (t
                    + seq![' ']) =~= sents_text(st.sents) + st.text + chunks_text(chunks, n));
            }
        }
    }
}

proof fn lemma_lines_complete(lines: Seq<Seq<char>>, n: int, b: int, st: ReconState)
    requires
        0 <= n <= lines.len(),
    ensures
        ({
            let st2 = recon_lines(lines, n, b, st);
            sents_text(st2.sents) + st2.text == sents_text(st.sents) + st.text + lines_text(
                lines,
                n,
            )
        }),
    decreases n,
{
    let st2 = recon_lines(lines, n, b, st);
    if n <= 0 {
        assert(sents_text(st2.sents) + st2.text =~= sents_text(st.sents) + st.text + lines_text(
            lines,
            n,
        ));
    } else {
        let prev = recon_lines(lines, n - 1, b, st);
        lemma_lines_complete(lines, n - 1, b, st);
        let cs = line_chunks(lines[n - 1]);
        lemma_chunks_complete(cs, cs.len() as int, b, n - 1, prev);
        assert(sents_text(st2.sents) + st2.text =~= sents_text(st.sents) + st.text + lines_text(
            lines,
            n,
        ));
    }
}

proof fn lemma_blocks_complete(doc: Seq<Seq<Seq<char>>>, n: int, st: ReconState)
    requires
        0 <= n <= doc.len(),
    ensures
        ({
            let st2 = recon_blocks(doc, n, st);
            sents_text(st2.sents) + st2.text == sents_text(st.sents) + st.text + doc_text(doc, n)
        }),
    decreases n,
{
    let st2 = recon_blocks(doc, n, st);
    if n <= 0 {
        assert(sents_text(st2.sents) + st2.text =~= sents_text(st.sents) + st.text + doc_text(
            doc,
            n,
        ));
    } else {
        let prev = recon_blocks(doc, n - 1, st);
        lemma_blocks_complete(doc, n - 1, st);
        lemma_lines_complete(doc[n - 1], doc[n - 1].len() as int, n - 1, prev);
        assert(sents_text(st2.sents) + st2.text =~= sents_text(st.sents) + st.text + doc_text(
            doc,
            n,
        ));
    }
}

/// Sentence reconstruction completeness: over the whole document, the texts
/// of the emitted sentences, concatenated, followed by the text still in the
/// open accumulator, equal every fragment-bearing chunk of the document in
/// reading order, each chunk followed by its terminating fullstop or by the
/// single separating space the reconstruction inserts: no fragment text is
/// lost but the open accumulator, and none is invented.
pub proof fn lemma_reconstruction_completeness(doc: Seq<Seq<Seq<char>>>)
    ensures
        ({
            let st = recon_blocks(doc, doc.len() as int, init_state());
            sents_text(st.sents) + st.text == doc_text(doc, doc.len() as int)
        }),
{
    lemma_blocks_complete(doc, doc.len() as int, init_state());
    let st = recon_blocks(doc, doc.len() as int, init_state());
    assert(sents_text(st.sents) + st.text =~= doc_text(doc, doc.len() as int));
}

} // verus!
