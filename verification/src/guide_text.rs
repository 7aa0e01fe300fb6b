//! The fixed parts of the build guide.

use vstd::prelude::*;

verus! {

/// Everything before the name of the board in the title.
pub const PAGE_START: &'static str = "<!DOCTYPE html>\n<html lang=\"en\">\n<head>\n<meta charset=\"UTF-8\">\n<meta name=\"viewport\" content=\"width=device-width,initial-scale=1\">\n<title>Build Guide — ";

/// Between the title and the style.
pub const PAGE_STYLE: &'static str = "</title>\n<style>\n";

/// Between the style and the name of the board in the heading.
pub const PAGE_HEADER: &'static str = "\n</style>\n</head>\n<body>\n<header>\n  <h1>Build Guide — ";

/// Between the heading and the tab of the continuity test.
pub const PAGE_TABS: &'static str = "</h1>\n  <p>Assembly steps, continuity test, and 3D model</p>\n</header>\n<div class=\"tab-bar\">\n  <button class=\"tab-btn active\" onclick=\"switchTab('assembly')\">Assembly Steps</button>\n";

/// The tab of the continuity test.
pub const PAGE_PROBE_TAB: &'static str = "  <button class=\"tab-btn\" onclick=\"switchTab('continuity')\">Continuity Test</button>\n";

/// The last tab, and the panel of steps up to their number.
pub const PAGE_STEPS: &'static str = r##"  <button class="tab-btn" onclick="switchTab('3d')">3D Model</button>
</div>
<div id="tab-assembly" class="layout">
  <div class="steps-panel">
    <h2>Assembly Steps</h2>
    <div id="a-steps-list"></div>
  </div>
  <div class="board-panel">
    <div class="board-title">Board view — highlighted elements for this step</div>
    <div id="a-board"></div>
    <div class="legend-row">
      <span class="leg"><span class="leg-dot" style="background:#00ff88"></span>This step</span>
      <span class="leg"><span class="leg-dot" style="background:#336633"></span>Placed</span>
      <span class="leg"><span class="leg-dot" style="background:#e94560;height:3px;border-radius:0"></span>F.Cu wire</span>
      <span class="leg"><span class="leg-dot" style="background:#4488ff;height:3px;border-radius:0"></span>B.Cu wire</span>
    </div>
    <div class="progress-bar-wrap"><div class="progress-bar" id="a-progress-bar" style="width:0%"></div></div>
  </div>
  <div class="detail-panel" id="a-detail">
    <div id="a-step-content"><p class="placeholder">Select a step from the left panel to begin.</p></div>
    <div id="a-completion" style="display:none" class="completion">
      <div class="check-icon">&#10003;</div>
      <h2>Assembly Complete!</h2>
      <p>All "##;

/// The rest of the panel of steps.
pub const PAGE_STEPS_END: &'static str = " steps done. Ready for continuity testing.</p>\n    </div>\n  </div>\n</div>\n";

/// The panel of the continuity test up to the number of nets.
pub const PROBE_START: &'static str = "<div id=\"tab-continuity\" class=\"layout\" style=\"display:none\">\n  <div class=\"steps-panel\">\n    <h2>Nets (";

/// Between the number of nets and what part of the plane is shown.
pub const PROBE_BOARD: &'static str = " total)</h2>\n    <div id=\"c-steps-list\"></div>\n  </div>\n  <div class=\"board-panel\">\n    <div class=\"board-title\">Board diagram — pads highlighted per net</div>\n    <svg id=\"c-board-svg\" viewBox=\"";

/// Between what part of the plane is shown and what is drawn on it.
pub const PROBE_PLANE: &'static str = "\" xmlns=\"http://www.w3.org/2000/svg\" style=\"display:block\">\n";

/// The rest of the drawing, and the panel beside it up to the number of nets.
pub const PROBE_DETAIL: &'static str = r##"      <g id="c-pads-layer"></g>
      <g id="c-labels-layer"></g>
    </svg>
    <div class="legend-row">
      <span class="leg"><span class="leg-dot" style="background:#445566"></span>Untested</span>
      <span class="leg"><span class="leg-dot" style="background:#e94560"></span>RED anchor</span>
      <span class="leg"><span class="leg-dot" style="background:#f5a623"></span>BLACK sweep</span>
      <span class="leg"><span class="leg-dot" style="background:#4caf50"></span>Passed</span>
    </div>
    <div class="progress-bar-wrap"><div class="progress-bar" id="c-progress-bar" style="width:0%"></div></div>
  </div>
  <div class="detail-panel" id="c-detail">
    <div id="c-step-content"><p class="placeholder">Select a net from the left panel to begin.</p></div>
    <div id="c-completion" style="display:none" class="completion">
      <div class="check-icon">&#10003;</div>
      <h2>All Tests Passed!</h2>
      <p>All "##;

/// The rest of the panel of the continuity test.
pub const PROBE_END: &'static str = " nets verified. Board wiring is correct.</p>\n    </div>\n  </div>\n</div>\n";

/// The panel of the model, and the start of the scripts.
pub const PAGE_MODEL: &'static str = "<div id=\"tab-3d\" style=\"display:none;height:calc(100vh - 120px);flex-direction:column;padding:0.75rem 1rem;max-width:1400px;margin:0 auto;box-sizing:border-box\">\n  <canvas id=\"canvas3d\" style=\"flex:1;min-height:0;width:100%;border-radius:8px;background:#1a1a2e;display:block\"></canvas>\n  <p style=\"font-size:12px;color:#8899aa;text-align:center;margin-top:8px\">Drag: Rotate &nbsp;|&nbsp; Scroll: Zoom &nbsp;|&nbsp; Right-drag: Pan</p>\n  <p id=\"no-3d\" style=\"display:none;color:#8899aa;text-align:center;padding:2rem\">3D model unavailable — kicad-cli GLB export failed or kicad-cli is not installed.</p>\n</div>\n<script src=\"https://cdnjs.cloudflare.com/ajax/libs/three.js/r128/three.min.js\"></script>\n<script src=\"https://cdn.jsdelivr.net/npm/three@0.128.0/examples/js/loaders/GLTFLoader.js\"></script>\n<script>\n";

/// How the page looks.
pub const STYLE: &'static str = r##"
:root {
  --bg:#1a1a2e; --panel:#16213e; --card:#0f3460; --accent:#e94560;
  --gold:#f5a623; --green:#4caf50; --text:#eaeaea; --muted:#8899aa;
  --border:#2a3a5a; --pad-anchor:#e94560; --pad-sweep:#f5a623; --pad-done:#4caf50;
}
*{box-sizing:border-box;margin:0;padding:0}
body{font-family:'Segoe UI',system-ui,sans-serif;background:var(--bg);color:var(--text);min-height:100vh}
header{background:linear-gradient(135deg,#0f3460 0%,#16213e 100%);border-bottom:2px solid var(--accent);padding:1rem 2rem;text-align:center}
header h1{font-size:1.4rem}
header p{color:var(--muted);font-size:0.85rem;margin-top:0.25rem}

/* Tab bar */
.tab-bar{display:flex;gap:0;border-bottom:1px solid var(--border);background:var(--panel)}
.tab-btn{background:transparent;border:none;border-bottom:2px solid transparent;color:var(--muted);padding:0.7rem 1.5rem;font-size:0.88rem;cursor:pointer;transition:color 0.15s,border-color 0.15s;margin-bottom:-1px}
.tab-btn:hover{color:var(--text)}
.tab-btn.active{color:var(--accent);border-bottom-color:var(--accent);font-weight:600}

/* Main layout grid — sidebar + board/detail column */
.layout{display:grid;grid-template-columns:300px 1fr;grid-template-rows:1fr auto;gap:0;height:calc(100vh - 120px)}
.steps-panel{background:var(--panel);border-right:1px solid var(--border);overflow-y:auto;grid-row:1/3}
.steps-panel h2{font-size:0.75rem;text-transform:uppercase;letter-spacing:0.1em;color:var(--muted);padding:0.85rem 1rem 0.5rem;border-bottom:1px solid var(--border);position:sticky;top:0;background:var(--panel);z-index:1}
.step-item{padding:0.6rem 0.9rem;border-bottom:1px solid var(--border);cursor:pointer;transition:background 0.15s;display:flex;gap:0.6rem;align-items:flex-start}
.step-item:hover{background:rgba(233,69,96,0.08)}
.step-item.active{background:rgba(233,69,96,0.15);border-left:3px solid var(--accent)}
.step-item.done{opacity:0.55}
.step-num{min-width:26px;height:26px;border-radius:50%;background:var(--card);display:flex;align-items:center;justify-content:center;font-size:0.75rem;font-weight:bold;border:2px solid var(--border);flex-shrink:0}
.step-item.active .step-num{border-color:var(--accent);color:var(--accent)}
.step-item.done .step-num{background:var(--green);border-color:var(--green);color:#fff}
.step-meta{flex:1;min-width:0}
.step-name{font-size:0.85rem;font-weight:600;white-space:nowrap;overflow:hidden;text-overflow:ellipsis}
.step-brief{font-size:0.74rem;color:var(--muted);margin-top:0.15rem}

/* Board panel (top of right column) — flex column, fills its 1fr grid row */
.board-panel{padding:0.6rem 1rem 0.5rem;background:var(--bg);display:flex;flex-direction:column;align-items:stretch;overflow:hidden;min-height:0}
.board-title{font-size:0.68rem;text-transform:uppercase;letter-spacing:0.1em;color:var(--muted);margin-bottom:0.35rem;flex-shrink:0}
#a-board{flex:1;min-height:0;width:100%;overflow:hidden;display:flex;align-items:center}
#a-board > svg{width:100%;height:100%}
#c-board-svg{flex:1;min-height:0;width:100%}

/* Active pad animations */
@keyframes anchorGlow {
  0%,100%{opacity:1;filter:drop-shadow(0 0 1px #e94560)}
  50%{opacity:0.5;filter:drop-shadow(0 0 4px #ff3366) drop-shadow(0 0 8px #e94560bb)}
}
@keyframes sweepBlink {
  0%,100%{opacity:1}
  50%{opacity:0.2}
}
.pad-anchor{animation:anchorGlow 0.75s ease-in-out infinite}
.pad-sweep{animation:sweepBlink 1.0s ease-in-out infinite}

.legend-row{display:flex;gap:1rem;margin-top:0.4rem;flex-wrap:wrap;flex-shrink:0}
.leg{display:flex;align-items:center;gap:0.3rem;font-size:0.75rem;color:var(--muted)}
.leg-dot{width:12px;height:12px;border-radius:50%;display:inline-block;flex-shrink:0}
.progress-bar-wrap{height:3px;background:var(--border);width:100%;border-radius:2px;margin-top:0.6rem}
.progress-bar{height:3px;background:var(--green);border-radius:2px;transition:width 0.3s}

/* Detail panel (bottom of right column) */
.detail-panel{background:var(--panel);border-top:1px solid var(--border);padding:1rem 1.2rem;overflow-y:auto}
.detail-panel h2{font-size:1rem;color:var(--accent);margin-bottom:0.2rem;display:flex;align-items:center;gap:0.5rem}
.net-badge{font-size:0.72rem;background:var(--card);border:1px solid var(--border);border-radius:4px;padding:0.1rem 0.4rem;color:var(--gold);font-family:monospace}
.placeholder{color:var(--muted);text-align:center;margin-top:1.5rem;font-size:0.9rem}

/* Probe layout */
.probe-section{margin-top:0.6rem}
.probe-label{font-size:0.72rem;text-transform:uppercase;letter-spacing:0.08em;font-weight:bold;margin-bottom:0.3rem}
.probe-anchor{color:var(--pad-anchor)}
.probe-sweep{color:var(--pad-sweep)}
.probe-point{display:flex;align-items:center;gap:0.4rem;padding:0.3rem 0.45rem;border-radius:4px;margin-bottom:0.2rem;font-size:0.82rem;background:rgba(255,255,255,0.04)}
.probe-dot{width:9px;height:9px;border-radius:50%;flex-shrink:0}
.probe-ref{font-family:monospace;font-weight:bold;min-width:65px}
.probe-desc{color:var(--muted);font-size:0.77rem}

/* Navigation */
.nav-buttons{display:flex;gap:0.6rem;margin-top:0.9rem}
.btn{padding:0.4rem 1rem;border-radius:5px;border:none;cursor:pointer;font-size:0.82rem;font-weight:600;transition:opacity 0.15s}
.btn:hover{opacity:0.85}
.btn:disabled{opacity:0.3;cursor:default}
.btn-done{background:var(--green);color:#fff}
.btn-next{background:var(--accent);color:#fff}
.btn-prev{background:var(--card);color:var(--text);border:1px solid var(--border)}

/* Completion screen */
.completion{text-align:center;padding:2rem 1rem}
.completion h2{font-size:1.6rem;color:var(--green);margin-bottom:0.6rem}
.completion p{color:var(--muted)}
.check-icon{font-size:3rem}
"##;

/// What the panel of steps does.
pub const STEPS_SCRIPT: &'static str = r##"
// ── Assembly tab ─────────────────────────────────────────────────────────────
let aCur = 0;
const aDone = new Set();

function aRenderSidebar() {
  document.getElementById('a-steps-list').innerHTML = A_TITLES.map((t,i) => {
    const cls = i===aCur ? 'step-item active' : aDone.has(i) ? 'step-item done' : 'step-item';
    const num = aDone.has(i) ? '✓' : i+1;
    return `<div class="${cls}" onclick="aGoStep(${i})"><div class="step-num">${num}</div><div class="step-meta"><div class="step-name">${t}</div></div></div>`;
  }).join('');
}

function aRenderBoard() {
  document.getElementById('a-board').innerHTML = A_SVGS[aCur];
}

function aRenderDetail() {
  const content = document.getElementById('a-step-content');
  const prevDis = aCur===0 ? ' disabled' : '';
  const nextDis = aCur===A_TOTAL-1 ? ' disabled' : '';
  content.innerHTML =
    `<h2>Step ${aCur+1}: ${A_TITLES[aCur]}</h2>`
    + `<p style="font-size:0.82rem;color:var(--muted);margin:0.5rem 0">${A_INSTRS[aCur]}</p>`
    + A_PARTS[aCur]
    + `<div class="nav-buttons">`
    + `<button class="btn btn-prev"${prevDis} onclick="aGoStep(aCur-1)">← Prev</button>`
    + `<button class="btn btn-done" onclick="aMarkDone()">✓ Done</button>`
    + `<button class="btn btn-next"${nextDis} onclick="aGoStep(aCur+1)">Next →</button>`
    + `</div>`;
}

function aUpdateProgress() {
  const pct = A_TOTAL > 0 ? (aDone.size / A_TOTAL * 100) : 0;
  document.getElementById('a-progress-bar').style.width = pct + '%';
  if (aDone.size === A_TOTAL) {
    document.getElementById('a-step-content').style.display = 'none';
    document.getElementById('a-completion').style.display = 'block';
  }
}

function aGoStep(i) {
  if (i < 0 || i >= A_TOTAL) return;
  aCur = i;
  aRenderSidebar(); aRenderBoard(); aRenderDetail(); aUpdateProgress();
  const items = document.querySelectorAll('#a-steps-list .step-item');
  if (items[i]) items[i].scrollIntoView({block:'nearest'});
}

function aMarkDone() {
  aDone.add(aCur);
  if (aCur < A_TOTAL - 1) aGoStep(aCur + 1);
  else { aRenderSidebar(); aUpdateProgress(); }
}
"##;

/// What the panel of the continuity test does.
pub const PROBE_SCRIPT: &'static str = r##"
// ── Continuity tab ───────────────────────────────────────────────────────────
let cCur = -1;
const cDone = new Set();
const cPadIdx = {};
C_PADS.forEach((p,i) => cPadIdx[p.id] = i);

function cSvgPad(pad, role) {
  const fill = role==='anchor' ? '#e94560' : role==='sweep' ? '#f5a623' : role==='done' ? '#4caf50' : '#445566';
  const stroke = role==='anchor' ? 'white' : 'none';
  const sw = role==='anchor' ? '0.2' : '0';
  const r = role==='anchor' || role==='sweep' ? (pad.r * 1.35).toFixed(3) : pad.r.toFixed(3);
  const cls = role==='anchor' ? ' class="pad-anchor"' : role==='sweep' ? ' class="pad-sweep"' : '';
  return `<circle${cls} id="cpad-${pad.id}" cx="${pad.x.toFixed(3)}" cy="${pad.y.toFixed(3)}" r="${r}" fill="${fill}" stroke="${stroke}" stroke-width="${sw}" style="cursor:pointer" onclick="cPadClick('${pad.id}')"/>`;
}

function cSvgLabel(pad) {
  return `<text x="${(pad.x+pad.r*1.3).toFixed(3)}" y="${(pad.y+pad.r*0.5).toFixed(3)}" font-size="1.2" fill="white" font-family="monospace">${pad.ref}-${pad.num}</text>`;
}

function cRenderBoard() {
  const pLayer = document.getElementById('c-pads-layer');
  const lLayer = document.getElementById('c-labels-layer');
  if (!pLayer) return;
  let pSvg = '', lSvg = '';
  if (cCur < 0) {
    C_PADS.forEach(p => { pSvg += cSvgPad(p, 'default'); });
  } else {
    const step = C_STEPS[cCur];
    const stepIds = new Set(step.pads.map(i => C_PADS[i].id));
    C_PADS.forEach(p => { if (!stepIds.has(p.id)) pSvg += cSvgPad(p, 'default'); });
    step.pads.forEach((pi, si) => {
      const p = C_PADS[pi];
      pSvg += cSvgPad(p, si===0 ? 'anchor' : 'sweep');
      lSvg += cSvgLabel(p);
    });
  }
  pLayer.innerHTML = pSvg;
  lLayer.innerHTML = lSvg;
}

function cRenderSidebar() {
  const list = document.getElementById('c-steps-list');
  if (!list) return;
  list.innerHTML = C_STEPS.map((s,i) => {
    const cls = i===cCur ? 'step-item active' : cDone.has(i) ? 'step-item done' : 'step-item';
    const num = cDone.has(i) ? '✓' : i+1;
    const brief = s.pads.length + ' pad' + (s.pads.length!==1?'s':'');
    const isUnnamed = s.net.startsWith('unconnected-(');
    const displayNet = isUnnamed ? '⚠ ' + s.net.replace(/^unconnected-\((.+)\)$/, '$1') : s.net;
    const netStyle = isUnnamed ? 'font-family:monospace;color:var(--gold);font-size:0.8rem' : 'font-family:monospace';
    return `<div class="${cls}" onclick="cGoStep(${i})"><div class="step-num">${num}</div><div class="step-meta"><div class="step-name" style="${netStyle}">${displayNet}</div><div class="step-brief">${brief}</div></div></div>`;
  }).join('');
}

function cRenderDetail() {
  const content = document.getElementById('c-step-content');
  if (!content) return;
  if (cCur < 0) {
    content.innerHTML = '<p class="placeholder">Select a net from the left panel to begin.</p>';
    return;
  }
  const step = C_STEPS[cCur];
  const anchor = C_PADS[step.pads[0]];
  const sweeps = step.pads.slice(1).map(i => C_PADS[i]);
  const anchorHtml = `<div class="probe-point"><div class="probe-dot" style="background:#e94560"></div><span class="probe-ref">${anchor.ref}-${anchor.num}</span><span class="probe-desc">net ${anchor.net}</span></div>`;
  const sweepHtml = sweeps.map(p => `<div class="probe-point"><div class="probe-dot" style="background:#f5a623"></div><span class="probe-ref">${p.ref}-${p.num}</span><span class="probe-desc">should beep</span></div>`).join('');
  const prevDis = cCur===0 ? ' disabled' : '';
  const nextDis = cCur===C_TOTAL-1 ? ' disabled' : '';
  const isUnnamedNet = step.net.startsWith('unconnected-(');
  const displayNetName = isUnnamedNet ? step.net.replace(/^unconnected-\((.+)\)$/, '$1') + ' (unnamed)' : step.net;
  content.innerHTML =
    `<h2>Net: <span class="net-badge">${displayNetName}</span></h2>`
    + `<p style="font-size:0.82rem;color:var(--muted);margin-bottom:0.4rem">Step ${cCur+1} of ${C_TOTAL}</p>`
    + `<div class="probe-section"><div class="probe-label probe-anchor">RED probe — hold here</div>${anchorHtml}</div>`
    + `<div class="probe-section" style="margin-top:0.5rem"><div class="probe-label probe-sweep">BLACK probe — touch each</div>${sweepHtml}</div>`
    + `<div class="nav-buttons">`
    + `<button class="btn btn-prev"${prevDis} onclick="cGoStep(cCur-1)">← Prev</button>`
    + `<button class="btn btn-done" onclick="cMarkDone()">✓ Done</button>`
    + `<button class="btn btn-next"${nextDis} onclick="cGoStep(cCur+1)">Next →</button>`
    + `</div>`;
}

function cUpdateProgress() {
  const bar = document.getElementById('c-progress-bar');
  if (!bar) return;
  bar.style.width = (C_TOTAL > 0 ? cDone.size/C_TOTAL*100 : 0) + '%';
  if (C_TOTAL > 0 && cDone.size === C_TOTAL) {
    document.getElementById('c-step-content').style.display = 'none';
    document.getElementById('c-completion').style.display = 'block';
  }
}

function cGoStep(i) {
  if (i < 0 || i >= C_TOTAL) return;
  cCur = i;
  cRenderSidebar(); cRenderBoard(); cRenderDetail(); cUpdateProgress();
  const items = document.querySelectorAll('#c-steps-list .step-item');
  if (items[i]) items[i].scrollIntoView({block:'nearest'});
}

function cMarkDone() {
  cDone.add(cCur);
  if (cCur < C_TOTAL-1) cGoStep(cCur+1);
  else { cRenderSidebar(); cUpdateProgress(); }
}

function cPadClick(id) {
  const pi = cPadIdx[id];
  for (let i = 0; i < C_STEPS.length; i++) {
    if (C_STEPS[i].pads.includes(pi)) { cGoStep(i); return; }
  }
}
"##;

/// What the panel of the model does.
pub const MODEL_SCRIPT: &'static str = r##"
// ── 3D viewer ────────────────────────────────────────────────────────────────
let renderer3d = null;
function init3d() {
  if (renderer3d) return;
  if (!GLB_B64) {
    document.getElementById('canvas3d').style.display = 'none';
    document.getElementById('no-3d').style.display = 'block';
    return;
  }
  const canvas = document.getElementById('canvas3d');
  const w = canvas.clientWidth || 700, h = canvas.clientHeight || 500;
  const scene = new THREE.Scene();
  scene.background = new THREE.Color(0x1a1a2e);
  const camera = new THREE.PerspectiveCamera(60, w/h, 0.1, 10000);
  renderer3d = new THREE.WebGLRenderer({canvas, antialias:true});
  renderer3d.setSize(w, h);
  renderer3d.setPixelRatio(window.devicePixelRatio);
  renderer3d.physicallyCorrectLights = true;
  renderer3d.outputEncoding = THREE.sRGBEncoding;
  scene.add(new THREE.AmbientLight(0xffffff, 1.0));
  const dl = new THREE.DirectionalLight(0xffffff, 1.5); dl.position.set(10,20,10); scene.add(dl);
  const dl2 = new THREE.DirectionalLight(0xffffff, 0.5); dl2.position.set(-10,-10,-5); scene.add(dl2);
  let boardObj = null;
  const loader = new THREE.GLTFLoader();
  // Decode the embedded base64 GLB to an ArrayBuffer and parse it directly.
  // Using loader.parse() (not loader.load() with a data: URI) avoids three.js
  // resolving a resource path against the document, which the browser blocks
  // as a cross-origin file:// load when the page is opened from disk.
  const onLoad = gltf => {
    boardObj = gltf.scene; scene.add(boardObj);
    const box = new THREE.Box3().setFromObject(boardObj);
    const center = new THREE.Vector3(); box.getCenter(center);
    boardObj.position.sub(center);
    const size = box.getSize(new THREE.Vector3());
    const maxDim = Math.max(size.x, size.y, size.z);
    const camDist = Math.abs(maxDim/2/Math.tan(camera.fov*Math.PI/360))*1.8;
    camera.position.set(0, camDist*0.4, camDist);
    camera.lookAt(0,0,0);
  };
  const onError = () => {
    document.getElementById('canvas3d').style.display = 'none';
    document.getElementById('no-3d').style.display = 'block';
  };
  try {
    const bin = atob(GLB_B64);
    const bytes = new Uint8Array(bin.length);
    for (let i = 0; i < bin.length; i++) bytes[i] = bin.charCodeAt(i);
    loader.parse(bytes.buffer, '', onLoad, onError);
  } catch (e) {
    onError();
  }
  let isDragging=false, isPanning=false, prev={x:0,y:0};
  const rot={x:0.3,y:0};
  canvas.addEventListener('mousedown', e => { isDragging=e.button===0; isPanning=e.button===2; prev={x:e.clientX,y:e.clientY}; });
  canvas.addEventListener('mousemove', e => {
    if (!boardObj) return;
    if (isDragging) { rot.y+=(e.clientX-prev.x)*0.01; rot.x+=(e.clientY-prev.y)*0.01; boardObj.rotation.y=rot.y; boardObj.rotation.x=rot.x; }
    else if (isPanning) { camera.position.x-=(e.clientX-prev.x)*0.1; camera.position.y+=(e.clientY-prev.y)*0.1; }
    prev={x:e.clientX,y:e.clientY};
  });
  canvas.addEventListener('mouseup', ()=>{ isDragging=false; isPanning=false; });
  canvas.addEventListener('wheel', e=>{ e.preventDefault(); const d=camera.position.length(); camera.position.setLength(e.deltaY>0?d*1.1:d/1.1); }, {passive:false});
  canvas.addEventListener('contextmenu', e=>e.preventDefault());
  (function animate(){ requestAnimationFrame(animate); renderer3d.render(scene, camera); })();
}
"##;

/// What the tabs do.
pub const TABS_SCRIPT: &'static str = r##"
// ── Tab switching & keyboard nav ─────────────────────────────────────────────
let activeTab = 'assembly';
function switchTab(tab) {
  activeTab = tab;
  document.getElementById('tab-assembly').style.display = tab==='assembly' ? 'grid' : 'none';
  const ctEl = document.getElementById('tab-continuity');
  if (ctEl) ctEl.style.display = tab==='continuity' ? 'grid' : 'none';
  document.getElementById('tab-3d').style.display = tab==='3d' ? 'flex' : 'none';
  document.querySelectorAll('.tab-btn').forEach(b => {
    b.classList.toggle('active', b.textContent.toLowerCase().includes(tab==='3d'?'3d':tab==='continuity'?'continuity':'assembly'));
  });
  if (tab==='3d') init3d();
}

document.addEventListener('keydown', e => {
  if (e.target.tagName === 'INPUT') return;
  if (activeTab === 'assembly') {
    if (e.key==='ArrowRight'||e.key==='ArrowDown') aGoStep(aCur+1);
    if (e.key==='ArrowLeft'||e.key==='ArrowUp') aGoStep(aCur-1);
    if (e.key==='Enter'||e.key===' ') { e.preventDefault(); aMarkDone(); }
  } else if (activeTab === 'continuity') {
    if (e.key==='ArrowRight'||e.key==='ArrowDown') cGoStep(cCur+1);
    if (e.key==='ArrowLeft'||e.key==='ArrowUp') cGoStep(cCur-1);
    if (e.key==='Enter'||e.key===' ') { e.preventDefault(); cMarkDone(); }
  }
});

// Initial render
aRenderSidebar(); aRenderBoard(); aRenderDetail();
cRenderSidebar(); cRenderBoard();
"##;

/// The end of the page.
pub const PAGE_END: &'static str = "</script>\n</body>\n</html>";

} // verus!
